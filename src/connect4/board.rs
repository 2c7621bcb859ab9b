//! The Connect-4 board: 28 cells, row by row from the top.
//!
//! ```text
//!  0  1  2  3  4  5  6
//!  7  8  9 10 11 12 13
//! 14 15 16 17 18 19 20
//! 21 22 23 24 25 26 27
//! ```
use crate::state::{opponent_of, IgnorePlayer, Position};
use crate::{Game, Player, Score, State};
use vstd::prelude::*;

verus! {

broadcast use vstd::array::group_array_axioms;

pub const WIDTH: usize = 7;

pub const HEIGHT: usize = 4;

pub const BOARD_POSITIONS: usize = 28;

/// The order in which the columns are tried: from the center outwards.
pub open spec fn column_order() -> Seq<usize> {
    seq![3, 2, 4, 1, 5, 0, 6]
}

/// The columns of `order` whose top cell is empty, in that order.
pub open spec fn free_columns(c: Seq<Position>, order: Seq<usize>) -> Seq<usize>
    decreases order.len(),
{
    if order.len() == 0 {
        seq![]
    } else {
        let rest = free_columns(c, order.drop_last());
        if c[order.last() as int] is None {
            rest.push(order.last())
        } else {
            rest
        }
    }
}

/// The cell that a stone dropped into column `col` comes to rest in: the
/// one above the highest stone below the top row, or the bottom cell.
pub open spec fn drop_target(c: Seq<Position>, col: int) -> int {
    if c[col + 7] is Some {
        col
    } else if c[col + 14] is Some {
        col + 7
    } else if c[col + 21] is Some {
        col + 14
    } else {
        col + 21
    }
}

/// The highest stone of column `col`, or -1 when the column is empty.
pub open spec fn top_stone(c: Seq<Position>, col: int) -> int {
    if !(0 <= col < 7) {
        -1
    } else if c[col] is Some {
        col
    } else if c[col + 7] is Some {
        col + 7
    } else if c[col + 14] is Some {
        col + 14
    } else if c[col + 21] is Some {
        col + 21
    } else {
        -1
    }
}

/// The first cell of the `k`-th line of four. Lines 0..7 are the columns,
/// 7..23 the rows (four per row, from the left), 23..27 the diagonals that
/// rise to the left and 27..31 those that fall to the right.
pub open spec fn line_start(k: int) -> int {
    if k < 7 {
        k
    } else if k < 23 {
        7 * ((k - 7) / 4) + (k - 7) % 4
    } else if k < 27 {
        k - 20
    } else {
        k - 27
    }
}

/// The distance between two neighbouring cells of the `k`-th line.
pub open spec fn line_step(k: int) -> int {
    if k < 7 {
        7
    } else if k < 23 {
        1
    } else if k < 27 {
        6
    } else {
        8
    }
}

pub open spec fn line_cell(k: int, j: int) -> int {
    line_start(k) + j * line_step(k)
}

/// The player whose stones fill all four cells, if any.
pub open spec fn four_winner(a: Position, b: Position, c: Position, d: Position) -> Option<Player> {
    if a == Some(Player::X) && b == Some(Player::X) && c == Some(Player::X) && d == Some(
        Player::X,
    ) {
        Some(Player::X)
    } else if a == Some(Player::O) && b == Some(Player::O) && c == Some(Player::O) && d == Some(
        Player::O,
    ) {
        Some(Player::O)
    } else {
        None
    }
}

pub open spec fn line_winner(c: Seq<Position>, k: int) -> Option<Player> {
    four_winner(c[line_cell(k, 0)], c[line_cell(k, 1)], c[line_cell(k, 2)], c[line_cell(k, 3)])
}

/// The winner of the first line among lines `lo..hi` that one player fills.
pub open spec fn winner_in(c: Seq<Position>, lo: int, hi: int) -> Option<Player>
    decreases hi - lo,
{
    if lo >= hi {
        None
    } else {
        match line_winner(c, lo) {
            Some(p) => Some(p),
            None => winner_in(c, lo + 1, hi),
        }
    }
}

pub open spec fn as_state(w: Option<Player>) -> State {
    match w {
        Some(p) => State::Winner(p),
        None => State::InProgress,
    }
}

pub open spec fn full(c: Seq<Position>) -> bool {
    forall|i: int| 0 <= i < c.len() ==> c[i] is Some
}

/// The outcome: the winner of the first filled line, else a draw on a full
/// board, else a game in progress.
pub open spec fn connect4_outcome(c: Seq<Position>) -> State {
    match winner_in(c, 0, 31) {
        Some(p) => State::Winner(p),
        None => if full(c) {
            State::Draw
        } else {
            State::InProgress
        },
    }
}

/// How many lines of four pass through each cell, roughly: the center
/// counts most, the edges least.
pub open spec fn weights() -> Seq<int> {
    seq![
        3, 4, 6, 7, 6, 4, 3,
        2, 4, 6, 7, 6, 4, 2,
        2, 4, 6, 7, 6, 4, 2,
        3, 4, 6, 7, 6, 4, 3,
    ]
}

/// The summed weights of the cells among the first `k` that hold `p`.
pub open spec fn weight_of(c: Seq<Position>, p: Player, k: int) -> int
    decreases k,
{
    if k <= 0 {
        0
    } else {
        weight_of(c, p, k - 1) + if c[k - 1] == Some(p) {
            weights()[k - 1]
        } else {
            0
        }
    }
}

/// The rating for `p`: the weights of its stones less those of the other's.
pub open spec fn connect4_rating(c: Seq<Position>, p: Player) -> int {
    weight_of(c, p, 28) - weight_of(c, opponent_of(p), 28)
}

/// No stone lies above an empty cell.
pub open spec fn stacked(c: Seq<Position>) -> bool {
    forall|i: int| 0 <= i < 21 && (#[trigger] c[i]) is Some ==> c[i + 7] is Some
}

/// The board with every stone given to the other player.
pub open spec fn swapped(c: Seq<Position>) -> Seq<Position> {
    Seq::new(
        c.len(),
        |i: int|
            match c[i] {
                Some(p) => Some(opponent_of(p)),
                None => None,
            },
    )
}

pub proof fn lemma_free_columns(c: Seq<Position>, order: Seq<usize>, m: usize)
    ensures
        free_columns(c, order).contains(m) <==> (order.contains(m) && c[m as int] is None),
    decreases order.len(),
{
    if order.len() > 0 {
        let rest = free_columns(c, order.drop_last());
        lemma_free_columns(c, order.drop_last(), m);
        if order.contains(m) && m != order.last() {
            let i = choose|i: int| 0 <= i < order.len() && order[i] == m;
            assert(order.drop_last()[i] == m);
        }
        if order.drop_last().contains(m) {
            let i = choose|i: int| 0 <= i < order.drop_last().len() && order.drop_last()[i] == m;
            assert(order[i] == m);
        }
        if c[order.last() as int] is None {
            if rest.push(order.last()).contains(m) && m != order.last() {
                let i = choose|i: int|
                    0 <= i < rest.push(order.last()).len() && rest.push(order.last())[i] == m;
                assert(rest[i] == m);
            }
            if rest.contains(m) {
                let i = choose|i: int| 0 <= i < rest.len() && rest[i] == m;
                assert(rest.push(order.last())[i] == m);
            }
            assert(rest.push(order.last())[rest.len() as int] == order.last());
        }
        assert(order[order.len() - 1] == order.last());
    }
}

pub proof fn lemma_winner_split(c: Seq<Position>, lo: int, mid: int, hi: int)
    requires
        lo <= mid <= hi,
    ensures
        winner_in(c, lo, hi) == match winner_in(c, lo, mid) {
            Some(p) => Some(p),
            None => winner_in(c, mid, hi),
        },
    decreases mid - lo,
{
    if lo < mid {
        lemma_winner_split(c, lo + 1, mid, hi);
    }
}

/// Every cell of every line lies on the board.
pub proof fn lemma_line_cells(k: int, j: int)
    requires
        0 <= k < 31,
        0 <= j < 4,
    ensures
        0 <= line_cell(k, j) < 28,
{
}

/// Where no line of four is filled by one player, nobody has won.
pub proof fn lemma_no_line_won(c: Seq<Position>, lo: int, hi: int)
    requires
        0 <= lo,
        hi <= 31,
        c.len() == 28,
        forall|i: int| 0 <= i < 28 ==> c[i] is None,
    ensures
        winner_in(c, lo, hi) is None,
    decreases hi - lo,
{
    if lo < hi {
        lemma_line_cells(lo, 0);
        lemma_line_cells(lo, 1);
        lemma_line_cells(lo, 2);
        lemma_line_cells(lo, 3);
        lemma_no_line_won(c, lo + 1, hi);
    }
}

pub proof fn lemma_weight_range(c: Seq<Position>, p: Player, k: int)
    requires
        0 <= k <= 28,
    ensures
        0 <= weight_of(c, p, k) <= 7 * k,
    decreases k,
{
    if k > 0 {
        lemma_weight_range(c, p, k - 1);
    }
}

pub proof fn lemma_weight_swapped(c: Seq<Position>, p: Player, k: int)
    requires
        0 <= k <= c.len(),
    ensures
        weight_of(swapped(c), opponent_of(p), k) == weight_of(c, p, k),
    decreases k,
{
    if k > 0 {
        lemma_weight_swapped(c, p, k - 1);
    }
}

/// Giving every stone to the other player and rating the board for the
/// other player gives the same rating.
pub proof fn lemma_rating_swapped(c: Seq<Position>, p: Player)
    requires
        c.len() == 28,
    ensures
        connect4_rating(swapped(c), opponent_of(p)) == connect4_rating(c, p),
{
    lemma_weight_swapped(c, p, 28);
    lemma_weight_swapped(c, opponent_of(p), 28);
}

/// A board of Connect-4.
#[derive(Clone)]
pub struct Connect4 {
    positions: [Position; 28],
}

impl Connect4 {
    /// The empty board.
    pub fn new() -> (r: Self)
        ensures
            r.cells() == Seq::new(28, |i: int| None::<Player>),
    {
        let positions: [Position; 28] = [None; 28];
        assert(positions == vstd::array::spec_array_fill_for_copy_type::<Position, 28>(None));
        assert(positions@ =~= Seq::new(28, |i: int| None::<Player>));
        Connect4 { positions }
    }

    /// Puts `value` into cell `position`.
    pub fn set_pos(&mut self, position: usize, value: Position)
        requires
            position < 28,
        ensures
            final(self).cells() == old(self).cells().update(position as int, value),
    {
        self.positions[position] = value;
    }

    /// What cell `index` holds.
    pub fn get(&self, index: usize) -> (r: Position)
        requires
            index < 28,
        ensures
            r == self.cells()[index as int],
    {
        self.positions[index]
    }

    pub fn result(&self) -> (r: State)
        ensures
            r == connect4_outcome(self.cells()),
    {
        if let State::Winner(winner) = self.check_board() {
            return State::Winner(winner);
        }
        assert(winner_in(self.cells(), 0, 31) is None);
        let mut i: usize = 0;
        while i < 28
            invariant
                0 <= i <= 28,
                winner_in(self.cells(), 0, 31) is None,
                forall|j: int| 0 <= j < i ==> self.cells()[j] is Some,
            decreases 28 - i,
        {
            if self.positions[i].is_none() {
                assert(self.cells()[i as int] is None);
                assert(!full(self.cells()));
                return State::InProgress;
            }
            i = i + 1;
        }
        State::Draw
    }

    fn check_board(&self) -> (r: State)
        ensures
            r == as_state(winner_in(self.cells(), 0, 31)),
    {
        proof {
            lemma_winner_split(self.cells(), 0, 7, 31);
            lemma_winner_split(self.cells(), 7, 23, 31);
        }
        match self.check_columns() {
            State::InProgress => {},
            other => return other,
        }
        match self.check_rows() {
            State::InProgress => {},
            other => return other,
        }
        self.check_diagonals()
    }

    fn check_columns(&self) -> (r: State)
        ensures
            r == as_state(winner_in(self.cells(), 0, 7)),
    {
        let mut i: usize = 0;
        while i < WIDTH
            invariant
                0 <= i <= 7,
                winner_in(self.cells(), 0, 7) == winner_in(self.cells(), i as int, 7),
            decreases 7 - i,
        {
            match self.check_four(i, i + WIDTH, i + 2 * WIDTH, i + 3 * WIDTH) {
                State::InProgress => {},
                other => return other,
            }
            i = i + 1;
        }
        State::InProgress
    }

    fn check_rows(&self) -> (r: State)
        ensures
            r == as_state(winner_in(self.cells(), 7, 23)),
    {
        let mut row_start: usize = 0;
        while row_start < HEIGHT
            invariant
                0 <= row_start <= 4,
                winner_in(self.cells(), 7, 23) == winner_in(
                    self.cells(),
                    7 + 4 * row_start as int,
                    23,
                ),
            decreases 4 - row_start,
        {
            let mut offset: usize = 0;
            while offset < 4
                invariant
                    0 <= row_start < 4,
                    0 <= offset <= 4,
                    winner_in(self.cells(), 7, 23) == winner_in(
                        self.cells(),
                        7 + 4 * row_start as int + offset as int,
                        23,
                    ),
                decreases 4 - offset,
            {
                let start = (row_start * WIDTH) + offset;
                let ghost k = 7 + 4 * row_start as int + offset as int;
                assert(line_start(k) == start as int);
                match self.check_four(start, start + 1, start + 2, start + 3) {
                    State::InProgress => {},
                    other => return other,
                }
                offset = offset + 1;
            }
            row_start = row_start + 1;
        }
        State::InProgress
    }

    fn check_diagonals(&self) -> (r: State)
        ensures
            r == as_state(winner_in(self.cells(), 23, 31)),
    {
        // rising to the left: 3, 9, 15, 21 and its neighbours
        let mut start: usize = 3;
        while start < WIDTH
            invariant
                3 <= start <= 7,
                winner_in(self.cells(), 23, 31) == winner_in(self.cells(), start as int + 20, 31),
            decreases 7 - start,
        {
            match self.check_four(start, start + 6, start + 12, start + 18) {
                State::InProgress => {},
                other => return other,
            }
            start = start + 1;
        }
        // falling to the right: 0, 8, 16, 24 and its neighbours
        let mut start: usize = 0;
        while start < 4
            invariant
                0 <= start <= 4,
                winner_in(self.cells(), 23, 31) == winner_in(self.cells(), start as int + 27, 31),
            decreases 4 - start,
        {
            match self.check_four(start, start + 8, start + 16, start + 24) {
                State::InProgress => {},
                other => return other,
            }
            start = start + 1;
        }
        State::InProgress
    }

    /// Sums the values of the four cells (0 for empty, 1 for `X`, 16 for
    /// `O`): only four stones of one player sum to 4 or to 64.
    fn check_four(&self, a: usize, b: usize, c: usize, d: usize) -> (r: State)
        requires
            a < 28,
            b < 28,
            c < 28,
            d < 28,
        ensures
            r == as_state(
                four_winner(
                    self.cells()[a as int],
                    self.cells()[b as int],
                    self.cells()[c as int],
                    self.cells()[d as int],
                ),
            ),
    {
        let sum = crate::state::position_as_int(self.positions[a]) + crate::state::position_as_int(
            self.positions[b],
        ) + crate::state::position_as_int(self.positions[c]) + crate::state::position_as_int(
            self.positions[d],
        );
        match sum {
            4 => State::Winner(Player::X),
            64 => State::Winner(Player::O),
            _ => State::InProgress,
        }
    }

    /// The summed weights of the cells that hold `player`.
    fn score_player(&self, player: Player) -> (r: i32)
        ensures
            r == weight_of(self.cells(), player, 28),
    {
        let table: [i32; 28] = [
            3, 4, 6, 7, 6, 4, 3,
            2, 4, 6, 7, 6, 4, 2,
            2, 4, 6, 7, 6, 4, 2,
            3, 4, 6, 7, 6, 4, 3,
        ];
        assert(table@ =~= weights().map_values(|w: int| w as i32));
        let mut sum: i32 = 0;
        let mut i: usize = 0;
        while i < BOARD_POSITIONS
            invariant
                0 <= i <= 28,
                table@ == weights().map_values(|w: int| w as i32),
                sum == weight_of(self.cells(), player, i as int),
            decreases 28 - i,
        {
            proof {
                lemma_weight_range(self.cells(), player, i as int);
            }
            if self.positions[i] == Some(player) {
                sum = sum + table[i];
            }
            i = i + 1;
        }
        sum
    }

    pub fn rate(&self, player: Player) -> (r: Score<IgnorePlayer>)
        ensures
            r.0 == connect4_rating(self.cells(), player),
    {
        proof {
            lemma_weight_range(self.cells(), player, 28);
            lemma_weight_range(self.cells(), opponent_of(player), 28);
        }
        Score::new(self.score_player(player) - self.score_player(player.opponent()))
    }

    /// The cell that a stone dropped into column `position` comes to rest in.
    pub fn drop_player(&self, position: usize) -> (r: usize)
        requires
            position < 7,
        ensures
            r == drop_target(self.cells(), position as int),
    {
        let mut i: usize = 0;
        while i < 3
            invariant
                0 <= i <= 3,
                position < 7,
                i >= 1 ==> self.cells()[position + 7] is None,
                i >= 2 ==> self.cells()[position + 14] is None,
                i >= 3 ==> self.cells()[position + 21] is None,
            decreases 3 - i,
        {
            let prev = position + (i * WIDTH);
            let next = position + ((i + 1) * WIDTH);
            if self.positions[next].is_some() {
                return prev;
            }
            i = i + 1;
        }
        position + (3 * WIDTH)
    }
}

impl Game for Connect4 {
    closed spec fn cells(&self) -> Seq<Position> {
        self.positions@
    }

    open spec fn valid(&self) -> bool {
        true
    }

    open spec fn size() -> nat {
        28
    }

    open spec fn settled(c: Seq<Position>) -> bool {
        stacked(c)
    }

    open spec fn moves_of(c: Seq<Position>) -> Seq<usize> {
        free_columns(c, column_order())
    }

    open spec fn outcome(c: Seq<Position>) -> State {
        connect4_outcome(c)
    }

    open spec fn rating(c: Seq<Position>, p: Player) -> int {
        connect4_rating(c, p)
    }

    open spec fn target(c: Seq<Position>, m: usize) -> int {
        drop_target(c, m as int)
    }

    open spec fn undo_target(c: Seq<Position>, m: usize) -> int {
        top_stone(c, m as int)
    }

    open spec fn default_depth() -> Option<usize> {
        Some(11)
    }

    proof fn lemma_size(b: &Self) {
    }

    proof fn lemma_target(c: Seq<Position>, m: usize) {
        lemma_free_columns(c, column_order(), m);
    }

    proof fn lemma_undo_target(c: Seq<Position>, m: usize, p: Player) {
        lemma_free_columns(c, column_order(), m);
    }

    proof fn lemma_settled(c: Seq<Position>, m: usize, p: Player) {
        lemma_free_columns(c, column_order(), m);
    }

    proof fn lemma_has_move(c: Seq<Position>) {
        let i = choose|i: int| 0 <= i < c.len() && !(c[i] is Some);
        let col = (i % 7) as usize;
        assert(c[col as int] is None);
        assert(column_order().contains(col)) by {
            assert(column_order()[6 - (if col == 6 { 0int } else if col == 0 { 1 } else if col == 5 { 2 } else if col == 1 { 3 } else if col == 4 { 4 } else if col == 2 { 5 } else { 6 })] == col);
        }
        lemma_free_columns(c, column_order(), col);
    }

    proof fn lemma_rating(c: Seq<Position>, p: Player) {
        lemma_weight_range(c, p, 28);
        lemma_weight_range(c, opponent_of(p), 28);
    }

    proof fn lemma_make_undo(b1: &Self, b2: &Self, b3: &Self, m: usize, p: Player) {
        lemma_free_columns(b1.cells(), column_order(), m);
        assert(b3.positions@ =~= b1.positions@);
        assert(b3.positions =~= b1.positions);
    }

    fn empty() -> (r: Self) {
        let r = Connect4::new();
        proof {
            lemma_no_line_won(r.cells(), 0, 31);
            assert(!full(r.cells()));
        }
        r
    }

    fn reasonable_search_depth() -> (r: Option<usize>) {
        Some(11)
    }

    fn possible_moves(&self) -> (r: Vec<usize>) {
        let order: [usize; 7] = [3, 2, 4, 1, 5, 0, 6];
        assert(order@ =~= column_order());
        let mut moves: Vec<usize> = Vec::new();
        let mut i: usize = 0;
        while i < 7
            invariant
                0 <= i <= 7,
                order@ == column_order(),
                moves@ == free_columns(self.cells(), column_order().take(i as int)),
            decreases 7 - i,
        {
            let col = order[i];
            assert(column_order().take(i as int + 1).drop_last() =~= column_order().take(i as int));
            if self.positions[col].is_none() {
                moves.push(col);
            }
            i = i + 1;
        }
        assert(column_order().take(7) =~= column_order());
        moves
    }

    fn result(&self) -> (r: State) {
        Connect4::result(self)
    }

    fn rate(&self, player: Player) -> (r: Score<IgnorePlayer>) {
        Connect4::rate(self, player)
    }

    fn make_move(&mut self, position: usize, player: Player) {
        proof {
            lemma_free_columns(self.cells(), column_order(), position);
        }
        let pos = self.drop_player(position);
        self.positions[pos] = Some(player);
    }

    fn undo_move(&mut self, position: usize) {
        let mut i: usize = 0;
        while i < 4
            invariant
                0 <= i <= 4,
                position < 7,
                *self == *old(self),
                i >= 1 ==> self.cells()[position as int] is None,
                i >= 2 ==> self.cells()[position + 7] is None,
                i >= 3 ==> self.cells()[position + 14] is None,
                i >= 4 ==> self.cells()[position + 21] is None,
            decreases 4 - i,
        {
            let pos = position + (i * WIDTH);
            if self.positions[pos].is_some() {
                self.positions[pos] = None;
                return;
            }
            i = i + 1;
        }
    }
}

} // verus!
