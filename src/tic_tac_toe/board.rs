//! The tic-tac-toe board, packed into a `u32`: two bits per cell, cell `i`
//! at bits `2 * i` and `2 * i + 1`, holding 0 for `X`, 1 for `O` and 2 for
//! an empty cell. The bits above the ninth cell are zero.
use crate::state::{IgnorePlayer, Position, LOST, TIE, WON};
use crate::{Game, Player, Score, State};
use vstd::prelude::*;

verus! {

/// The two bits of cell `i`.
pub open spec fn field(v: u32, i: int) -> u32 {
    (v >> (2 * i) as u32) & 3
}

/// What a two-bit code stands for.
pub open spec fn cell_of(code: u32) -> Position {
    if code == 0 {
        Some(Player::X)
    } else if code == 1 {
        Some(Player::O)
    } else {
        None
    }
}

/// Whether `v` encodes a board: no code 3 among the nine cells, and
/// nothing above them.
pub open spec fn valid_bits(v: u32) -> bool {
    &&& v < 0x40000
    &&& forall|i: int| 0 <= i < 9 ==> #[trigger] field(v, i) < 3
}

pub open spec fn cells_of(v: u32) -> Seq<Position> {
    Seq::new(9, |i: int| cell_of(field(v, i)))
}

/// The lines of three: rows, then columns, then the two diagonals.
pub open spec fn lines() -> Seq<(int, int, int)> {
    seq![(0, 1, 2), (3, 4, 5), (6, 7, 8), (0, 3, 6), (1, 4, 7), (2, 5, 8), (0, 4, 8), (2, 4, 6)]
}

/// The player whose stones fill all three cells, if any.
pub open spec fn three_winner(a: Position, b: Position, c: Position) -> Option<Player> {
    if a == Some(Player::X) && b == Some(Player::X) && c == Some(Player::X) {
        Some(Player::X)
    } else if a == Some(Player::O) && b == Some(Player::O) && c == Some(Player::O) {
        Some(Player::O)
    } else {
        None
    }
}

/// The winner of the first line from the `k`-th on that one player fills.
pub open spec fn line_winner_from(c: Seq<Position>, k: int) -> Option<Player>
    decreases 8 - k,
{
    if k >= 8 || k < 0 {
        None
    } else {
        let l = lines()[k];
        match three_winner(c[l.0], c[l.1], c[l.2]) {
            Some(p) => Some(p),
            None => line_winner_from(c, k + 1),
        }
    }
}

pub open spec fn full(c: Seq<Position>) -> bool {
    forall|i: int| 0 <= i < c.len() ==> c[i] is Some
}

/// The outcome found by scanning every row, column and diagonal: the
/// winner of the first filled line, else a draw on a full board, else a
/// game in progress.
pub open spec fn ttt_outcome(c: Seq<Position>) -> State {
    match line_winner_from(c, 0) {
        Some(p) => State::Winner(p),
        None => if full(c) {
            State::Draw
        } else {
            State::InProgress
        },
    }
}

/// The empty cells among the first `k`, in order.
pub open spec fn empty_cells(c: Seq<Position>, k: int) -> Seq<usize>
    decreases k,
{
    if k <= 0 {
        seq![]
    } else {
        let rest = empty_cells(c, k - 1);
        if c[k - 1] is None {
            rest.push((k - 1) as usize)
        } else {
            rest
        }
    }
}

pub proof fn lemma_empty_cells(c: Seq<Position>, k: int, m: usize)
    requires
        0 <= k <= 9,
    ensures
        empty_cells(c, k).contains(m) <==> (m < k && c[m as int] is None),
    decreases k,
{
    if k > 0 {
        let rest = empty_cells(c, k - 1);
        lemma_empty_cells(c, k - 1, m);
        if c[k - 1] is None {
            let r = rest.push((k - 1) as usize);
            assert(r[rest.len() as int] == (k - 1) as usize);
            if m == k - 1 {
                assert(r.contains(m));
            }
            if rest.contains(m) {
                let i = choose|i: int| 0 <= i < rest.len() && rest[i] == m;
                assert(r[i] == m);
            }
            if r.contains(m) && m != (k - 1) as usize {
                let i = choose|i: int| 0 <= i < r.len() && r[i] == m;
                assert(rest[i] == m);
            }
        }
    }
}

proof fn lemma_set_field(v: u32, i: u32, j: u32, code: u32)
    requires
        i < 9,
        j < 16,
        code < 4,
    ensures
        j == i ==> (((v & !(3u32 << (2 * i))) | (code << (2 * i))) >> (2 * j)) & 3 == code,
        j != i ==> (((v & !(3u32 << (2 * i))) | (code << (2 * i))) >> (2 * j)) & 3 == (v >> (2
            * j)) & 3,
{
    assert(j == i ==> (((v & !(3u32 << (2 * i))) | (code << (2 * i))) >> (2 * j)) & 3 == code)
        by (bit_vector)
        requires
            i < 9,
            j < 16,
            code < 4,
    ;
    assert(j != i ==> (((v & !(3u32 << (2 * i))) | (code << (2 * i))) >> (2 * j)) & 3 == (v >> (2
        * j)) & 3) by (bit_vector)
        requires
            i < 9,
            j < 16,
            code < 4,
    ;
}

proof fn lemma_set_bound(v: u32, i: u32, code: u32)
    requires
        i < 9,
        code < 4,
        v < 0x40000,
    ensures
        ((v & !(3u32 << (2 * i))) | (code << (2 * i))) < 0x40000,
{
    assert(((v & !(3u32 << (2 * i))) | (code << (2 * i))) < 0x40000) by (bit_vector)
        requires
            i < 9,
            code < 4,
            v < 0x40000,
    ;
}

/// Two encodings below bit 18 with the same nine cells are equal.
proof fn lemma_fields_determine(a: u32, b: u32)
    requires
        a < 0x40000,
        b < 0x40000,
        forall|i: int| 0 <= i < 9 ==> #[trigger] field(a, i) == field(b, i),
    ensures
        a == b,
{
    assert(field(a, 0) == field(b, 0));
    assert(field(a, 1) == field(b, 1));
    assert(field(a, 2) == field(b, 2));
    assert(field(a, 3) == field(b, 3));
    assert(field(a, 4) == field(b, 4));
    assert(field(a, 5) == field(b, 5));
    assert(field(a, 6) == field(b, 6));
    assert(field(a, 7) == field(b, 7));
    assert(field(a, 8) == field(b, 8));
    assert(a == b) by (bit_vector)
        requires
            a < 0x40000,
            b < 0x40000,
            (a >> 0u32) & 3 == (b >> 0u32) & 3,
            (a >> 2u32) & 3 == (b >> 2u32) & 3,
            (a >> 4u32) & 3 == (b >> 4u32) & 3,
            (a >> 6u32) & 3 == (b >> 6u32) & 3,
            (a >> 8u32) & 3 == (b >> 8u32) & 3,
            (a >> 10u32) & 3 == (b >> 10u32) & 3,
            (a >> 12u32) & 3 == (b >> 12u32) & 3,
            (a >> 14u32) & 3 == (b >> 14u32) & 3,
            (a >> 16u32) & 3 == (b >> 16u32) & 3,
    ;
}

/// A board of tic-tac-toe.
#[derive(Clone)]
pub struct TicTacToe(u32);

impl TicTacToe {
    /// The packed encoding of the board.
    pub closed spec fn encoding(&self) -> u32 {
        self.0
    }

    /// The cells and the validity of a board are those of its encoding.
    pub proof fn lemma_encoding(&self)
        ensures
            self.cells() == cells_of(self.encoding()),
            self.valid() == valid_bits(self.encoding()),
    {
    }

    /// The packed encoding of the board.
    pub fn to_bits(&self) -> (r: u32)
        ensures
            r == self.encoding(),
    {
        self.0
    }

    /// The empty board: every cell holds code 2.
    pub fn empty() -> (r: Self)
        ensures
            r.valid(),
            r.cells() == Seq::new(9, |i: int| None::<Player>),
    {
        let r = TicTacToe(0x0002AAAA);
        proof {
            assert forall|i: int| 0 <= i < 9 implies #[trigger] field(0x0002AAAA, i) == 2 by {
                let k = i as u32;
                assert(k < 9);
                assert((0x0002AAAAu32 >> (2 * k)) & 3 == 2) by (bit_vector)
                    requires
                        k < 9,
                ;
            }
            assert(r.cells() =~= Seq::new(9, |i: int| None::<Player>));
        }
        r
    }

    /// Whether `bits` encodes a board.
    fn validate(bits: u32) -> (r: bool)
        ensures
            r == valid_bits(bits),
    {
        if bits >= 0x40000 {
            return false;
        }
        let mut i: u32 = 0;
        while i < 9
            invariant
                0 <= i <= 9,
                forall|j: int| 0 <= j < i ==> #[trigger] field(bits, j) < 3,
            decreases 9 - i,
        {
            if (bits >> (i * 2)) & 3 >= 3 {
                assert(field(bits, i as int) >= 3);
                return false;
            }
            assert(field(bits, i as int) == (bits >> (i * 2)) & 3);
            i = i + 1;
        }
        true
    }

    /// The board that `bits` encodes, if it encodes one.
    pub fn from_bits(bits: u32) -> (r: Option<Self>)
        ensures
            r is Some <==> valid_bits(bits),
            r matches Some(b) ==> b.encoding() == bits && b.valid() && b.cells() == cells_of(bits),
    {
        if TicTacToe::validate(bits) {
            Some(TicTacToe(bits))
        } else {
            None
        }
    }

    /// What cell `index` holds.
    pub fn get(&self, index: usize) -> (r: Option<Player>)
        requires
            self.valid(),
            index < 9,
        ensures
            r == self.cells()[index as int],
    {
        let masked = (self.0 >> (index as u32 * 2)) & 0b11;
        assert(masked == field(self.0, index as int));
        match masked {
            0 => Some(Player::X),
            1 => Some(Player::O),
            _ => None,
        }
    }

    /// Puts `value` into cell `index`; the other cells keep their codes.
    pub fn set(&mut self, index: usize, value: Option<Player>)
        requires
            old(self).valid(),
            index < 9,
        ensures
            final(self).valid(),
            final(self).cells() == old(self).cells().update(index as int, value),
    {
        let code = Player::as_u8(value) as u32;
        let shift: u32 = 2 * (index as u32);
        let v = self.0;
        let mask = 0b11u32 << shift;
        let result = (v & !mask) | (code << shift);
        proof {
            lemma_set_bound(v, index as u32, code);
            assert forall|j: int| 0 <= j < 9 implies #[trigger] field(result, j) == if j == index {
                code
            } else {
                field(v, j)
            } by {
                lemma_set_field(v, index as u32, j as u32, code);
            }
        }
        self.0 = result;
        proof {
            assert(self.cells() =~= old(self).cells().update(index as int, value));
        }
    }

    /// The nine cells in index order.
    pub fn iter(&self) -> (r: Vec<Option<Player>>)
        requires
            self.valid(),
        ensures
            r@ == self.cells(),
    {
        let mut r: Vec<Option<Player>> = Vec::new();
        let mut i: usize = 0;
        while i < 9
            invariant
                0 <= i <= 9,
                self.valid(),
                r@ == self.cells().take(i as int),
            decreases 9 - i,
        {
            r.push(self.get(i));
            assert(r@ =~= self.cells().take(i as int + 1));
            i = i + 1;
        }
        assert(self.cells().take(9) =~= self.cells());
        r
    }

    /// The outcome, by scanning every row, column and diagonal.
    pub fn result(&self) -> (r: State)
        requires
            self.valid(),
        ensures
            r == ttt_outcome(self.cells()),
    {
        let all_lines: [(usize, usize, usize); 8] = [
            (0, 1, 2),
            (3, 4, 5),
            (6, 7, 8),
            (0, 3, 6),
            (1, 4, 7),
            (2, 5, 8),
            (0, 4, 8),
            (2, 4, 6),
        ];
        let c = self.iter();
        let mut k: usize = 0;
        while k < 8
            invariant
                0 <= k <= 8,
                c@ == self.cells(),
                c@.len() == 9,
                forall|j: int|
                    0 <= j < 8 ==> (#[trigger] all_lines@[j]).0 as int == lines()[j].0 && all_lines@[j].1
                        as int == lines()[j].1 && all_lines@[j].2 as int == lines()[j].2
                        && all_lines@[j].0 < 9 && all_lines@[j].1 < 9 && all_lines@[j].2 < 9,
                line_winner_from(self.cells(), 0) == line_winner_from(self.cells(), k as int),
            decreases 8 - k,
        {
            let (a, b, d) = all_lines[k];
            assert(all_lines@[k as int].0 == a);
            if c[a] == Some(Player::X) && c[b] == Some(Player::X) && c[d] == Some(Player::X) {
                return State::Winner(Player::X);
            }
            if c[a] == Some(Player::O) && c[b] == Some(Player::O) && c[d] == Some(Player::O) {
                return State::Winner(Player::O);
            }
            k = k + 1;
        }
        let mut i: usize = 0;
        while i < 9
            invariant
                0 <= i <= 9,
                c@ == self.cells(),
                line_winner_from(self.cells(), 0) is None,
                forall|j: int| 0 <= j < i ==> self.cells()[j] is Some,
            decreases 9 - i,
        {
            if c[i].is_none() {
                assert(!full(self.cells()));
                return State::InProgress;
            }
            i = i + 1;
        }
        State::Draw
    }
}

impl Game for TicTacToe {
    closed spec fn cells(&self) -> Seq<Position> {
        cells_of(self.0)
    }

    closed spec fn valid(&self) -> bool {
        valid_bits(self.0)
    }

    open spec fn size() -> nat {
        9
    }

    open spec fn settled(c: Seq<Position>) -> bool {
        true
    }

    open spec fn moves_of(c: Seq<Position>) -> Seq<usize> {
        empty_cells(c, 9)
    }

    open spec fn outcome(c: Seq<Position>) -> State {
        ttt_outcome(c)
    }

    open spec fn rating(c: Seq<Position>, p: Player) -> int {
        match ttt_outcome(c) {
            State::Winner(w) => if w == p {
                WON as int
            } else {
                LOST as int
            },
            _ => TIE as int,
        }
    }

    open spec fn target(c: Seq<Position>, m: usize) -> int {
        m as int
    }

    open spec fn undo_target(c: Seq<Position>, m: usize) -> int {
        if m < 9 {
            m as int
        } else {
            -1
        }
    }

    open spec fn default_depth() -> Option<usize> {
        None
    }

    proof fn lemma_size(b: &Self) {
    }

    proof fn lemma_target(c: Seq<Position>, m: usize) {
        lemma_empty_cells(c, 9, m);
    }

    proof fn lemma_undo_target(c: Seq<Position>, m: usize, p: Player) {
        lemma_empty_cells(c, 9, m);
    }

    proof fn lemma_settled(c: Seq<Position>, m: usize, p: Player) {
    }

    proof fn lemma_has_move(c: Seq<Position>) {
        let i = choose|i: int| 0 <= i < c.len() && !(c[i] is Some);
        lemma_empty_cells(c, 9, i as usize);
    }

    proof fn lemma_rating(c: Seq<Position>, p: Player) {
    }

    proof fn lemma_make_undo(b1: &Self, b2: &Self, b3: &Self, m: usize, p: Player) {
        lemma_empty_cells(b1.cells(), 9, m);
        assert(b3.cells() =~= b1.cells());
        assert forall|i: int| 0 <= i < 9 implies #[trigger] field(b3.0, i) == field(b1.0, i) by {
            assert(b3.cells()[i] == b1.cells()[i]);
        }
        lemma_fields_determine(b3.0, b1.0);
    }

    fn empty() -> (r: Self) {
        let r = TicTacToe::empty();
        assert(line_winner_from(r.cells(), 0) is None) by {
            assert(line_winner_from(r.cells(), 8) is None);
            assert(line_winner_from(r.cells(), 7) is None);
            assert(line_winner_from(r.cells(), 6) is None);
            assert(line_winner_from(r.cells(), 5) is None);
            assert(line_winner_from(r.cells(), 4) is None);
            assert(line_winner_from(r.cells(), 3) is None);
            assert(line_winner_from(r.cells(), 2) is None);
            assert(line_winner_from(r.cells(), 1) is None);
        }
        assert(!full(r.cells())) by {
            assert(r.cells()[0] is None);
        }
        r
    }

    fn reasonable_search_depth() -> (r: Option<usize>) {
        None
    }

    fn possible_moves(&self) -> (r: Vec<usize>) {
        let mut moves: Vec<usize> = Vec::new();
        let mut i: usize = 0;
        while i < 9
            invariant
                0 <= i <= 9,
                self.valid(),
                moves@ == empty_cells(self.cells(), i as int),
            decreases 9 - i,
        {
            if self.get(i).is_none() {
                moves.push(i);
            }
            i = i + 1;
        }
        moves
    }

    fn result(&self) -> (r: State) {
        TicTacToe::result(self)
    }

    fn rate(&self, player: Player) -> (r: Score<IgnorePlayer>) {
        match self.result() {
            State::Winner(winner) => if player == winner {
                Score::new(WON)
            } else {
                Score::new(LOST)
            },
            State::InProgress => Score::new(TIE),
            State::Draw => Score::new(TIE),
        }
    }

    fn make_move(&mut self, position: usize, player: Player) {
        proof {
            lemma_empty_cells(self.cells(), 9, position);
        }
        self.set(position, Some(player));
    }

    fn undo_move(&mut self, position: usize) {
        self.set(position, None);
    }
}

} // verus!
