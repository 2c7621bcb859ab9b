//! The search core: negamax with alpha-beta pruning, generic over [`Game`].
use core::marker::PhantomData;

use crate::state::{
    empty_count, lemma_fill_cell, opponent_of, IgnorePlayer, Position, LOST, TIE, WON,
};
use crate::{Game, GamePlayer, Player, Score, State};
use vstd::prelude::*;

verus! {

/// `x` held to the window `[lo, hi]`.
pub open spec fn clamp(x: int, lo: int, hi: int) -> int {
    if x < lo {
        lo
    } else if x > hi {
        hi
    } else {
        x
    }
}

/// The board after `p` makes move `m` on `c`.
pub open spec fn child<G: Game>(c: Seq<Position>, m: usize, p: Player) -> Seq<Position> {
    c.update(G::target(c, m), Some(p))
}

/// The value of board `c` for `p`, who is to move, searched from `depth`
/// with no pruning: the rating at the depth limit, the score of a decided
/// game, else the best over the legal moves of the negated value of the
/// board that follows (a lost game when there is none).
pub open spec fn negamax<G: Game>(
    c: Seq<Position>,
    p: Player,
    depth: int,
    max_depth: Option<usize>,
) -> int
    decreases empty_count(c), 1nat, 0int,
{
    if max_depth is Some && depth >= max_depth->0 {
        G::rating(c, p)
    } else {
        match G::outcome(c) {
            State::Winner(w) => if w == p {
                WON as int
            } else {
                LOST as int
            },
            State::Draw => TIE as int,
            State::InProgress => scan::<G>(c, p, depth, max_depth, G::moves_of(c).len() as int).0,
        }
    }
}

/// The best value over the first `k` legal moves of `c`, starting from a
/// lost game, and the first move that reaches it (`None` when no move
/// beats a lost game).
pub open spec fn scan<G: Game>(
    c: Seq<Position>,
    p: Player,
    depth: int,
    max_depth: Option<usize>,
    k: int,
) -> (int, Option<usize>)
    decreases empty_count(c), 0nat, k,
{
    if k <= 0 {
        (LOST as int, None)
    } else {
        let prev = scan::<G>(c, p, depth, max_depth, k - 1);
        let m = G::moves_of(c)[k - 1];
        let next = child::<G>(c, m, p);
        if empty_count(next) < empty_count(c) {
            let w = -negamax::<G>(next, opponent_of(p), depth + 1, max_depth);
            if w > prev.0 {
                (w, Some(m))
            } else {
                prev
            }
        } else {
            prev
        }
    }
}

/// The move that the search settles on at the top of the tree, if any.
pub open spec fn decision<G: Game>(c: Seq<Position>, p: Player, max_depth: Option<usize>) -> Option<
    usize,
> {
    if max_depth is Some && max_depth->0 == 0 {
        None
    } else if G::outcome(c) != State::InProgress {
        None
    } else {
        scan::<G>(c, p, 0, max_depth, G::moves_of(c).len() as int).1
    }
}

/// The move a perfect player makes: the search's decision, or else the
/// first legal move.
pub open spec fn perfect_move<G: Game>(c: Seq<Position>, p: Player, max_depth: Option<usize>) -> usize {
    match decision::<G>(c, p, max_depth) {
        Some(m) => m,
        None => G::moves_of(c)[0],
    }
}

/// Every value lies between a lost and a won game.
pub proof fn lemma_negamax_range<G: Game>(
    c: Seq<Position>,
    p: Player,
    depth: int,
    max_depth: Option<usize>,
)
    requires
        c.len() == G::size(),
    ensures
        LOST <= negamax::<G>(c, p, depth, max_depth) <= WON,
    decreases empty_count(c), 1nat, 0int,
{
    if max_depth is Some && depth >= max_depth->0 {
        G::lemma_rating(c, p);
    } else if G::outcome(c) == State::InProgress {
        lemma_scan_range::<G>(c, p, depth, max_depth, G::moves_of(c).len() as int);
    }
}

/// What a scan finds lies between a lost and a won game, and grows with `k`;
/// a move it names is legal.
pub proof fn lemma_scan_range<G: Game>(
    c: Seq<Position>,
    p: Player,
    depth: int,
    max_depth: Option<usize>,
    k: int,
)
    requires
        c.len() == G::size(),
        k <= G::moves_of(c).len(),
    ensures
        LOST <= scan::<G>(c, p, depth, max_depth, k).0 <= WON,
        k > 0 ==> scan::<G>(c, p, depth, max_depth, k - 1).0 <= scan::<G>(
            c,
            p,
            depth,
            max_depth,
            k,
        ).0,
        scan::<G>(c, p, depth, max_depth, k).1 matches Some(m) ==> G::moves_of(c).contains(m),
    decreases empty_count(c), 0nat, k,
{
    if k > 0 {
        lemma_scan_range::<G>(c, p, depth, max_depth, k - 1);
        let m = G::moves_of(c)[k - 1];
        assert(G::moves_of(c).contains(m));
        G::lemma_target(c, m);
        let next = child::<G>(c, m, p);
        if empty_count(next) < empty_count(c) {
            lemma_negamax_range::<G>(next, opponent_of(p), depth + 1, max_depth);
        }
        let r = scan::<G>(c, p, depth, max_depth, k);
        if r.1 is Some && r.1 != scan::<G>(c, p, depth, max_depth, k - 1).1 {
            assert(G::moves_of(c)[k - 1] == m);
        }
    }
}

/// Once a scan has found a won game, later moves change nothing.
pub proof fn lemma_scan_won<G: Game>(
    c: Seq<Position>,
    p: Player,
    depth: int,
    max_depth: Option<usize>,
    i: int,
    k: int,
)
    requires
        c.len() == G::size(),
        0 <= i <= k <= G::moves_of(c).len(),
        scan::<G>(c, p, depth, max_depth, i).0 == WON,
    ensures
        scan::<G>(c, p, depth, max_depth, k) == scan::<G>(c, p, depth, max_depth, i),
    decreases k - i,
{
    if k > i {
        lemma_scan_won::<G>(c, p, depth, max_depth, i, k - 1);
        let m = G::moves_of(c)[k - 1];
        assert(G::moves_of(c).contains(m));
        G::lemma_target(c, m);
        let next = child::<G>(c, m, p);
        if empty_count(next) < empty_count(c) {
            lemma_negamax_range::<G>(next, opponent_of(p), depth + 1, max_depth);
        }
    }
}

/// A scan is monotone in the number of moves it looks at.
pub proof fn lemma_scan_monotone<G: Game>(
    c: Seq<Position>,
    p: Player,
    depth: int,
    max_depth: Option<usize>,
    i: int,
    k: int,
)
    requires
        c.len() == G::size(),
        0 <= i <= k <= G::moves_of(c).len(),
    ensures
        scan::<G>(c, p, depth, max_depth, i).0 <= scan::<G>(c, p, depth, max_depth, k).0,
    decreases k - i,
{
    if k > i {
        lemma_scan_monotone::<G>(c, p, depth, max_depth, i, k - 1);
        lemma_scan_range::<G>(c, p, depth, max_depth, k);
    }
}

/// A player that searches the game tree for its best move.
pub struct PerfectPlayer<G: Game> {
    pub best_move: Option<usize>,
    pub max_depth: Option<usize>,
    pub print_time: bool,
    pub game: PhantomData<G>,
}

impl<G: Game> Default for PerfectPlayer<G> {
    /// A player that searches as deep as the game advises and reports how
    /// long its moves take.
    fn default() -> (r: Self)
        ensures
            r.best_move is None,
            r.max_depth == G::default_depth(),
            r.print_time,
    {
        Self::new(true)
    }
}

impl<G: Game> PerfectPlayer<G> {
    /// A player that searches as deep as the game advises.
    pub fn new(print_time: bool) -> (r: Self)
        ensures
            r.best_move is None,
            r.max_depth == G::default_depth(),
            r.print_time == print_time,
    {
        PerfectPlayer {
            best_move: None,
            max_depth: G::reasonable_search_depth(),
            print_time,
            game: PhantomData,
        }
    }

    /// The same player with another depth limit (`None`: none at all).
    pub fn with_max_depth(self, max_depth: Option<usize>) -> (r: Self)
        ensures
            r.best_move == self.best_move,
            r.max_depth == max_depth,
            r.print_time == self.print_time,
    {
        let mut this = self;
        this.max_depth = max_depth;
        this
    }

    /// The move that the last search settled on.
    pub fn best_move(&self) -> (r: usize)
        requires
            self.best_move is Some,
        ensures
            Some(r) == self.best_move,
    {
        match self.best_move {
            Some(m) => m,
            None => 0,
        }
    }

    /// Searches `board` for `maximizing_player`, who is to move, inside the
    /// window `(alpha, beta)`, `depth` levels below the top of the tree.
    /// Held to the window, the score is the unpruned value of the board; at
    /// the top of the tree with the full window the score is that value and
    /// the move recorded is the first best move. The board is left as it was.
    pub fn minmax(
        &mut self,
        board: &mut G,
        maximizing_player: Player,
        alpha: Score<IgnorePlayer>,
        beta: Score<IgnorePlayer>,
        depth: usize,
    ) -> (r: Score<IgnorePlayer>)
        requires
            old(board).valid(),
            LOST <= alpha.0 < beta.0 <= WON,
            depth + empty_count(old(board).cells()) < usize::MAX,
        ensures
            *final(board) == *old(board),
            final(self).max_depth == old(self).max_depth,
            LOST <= r.0 <= WON,
            clamp(r.0 as int, alpha.0 as int, beta.0 as int) == clamp(
                negamax::<G>(old(board).cells(), maximizing_player, depth as int, old(self).max_depth),
                alpha.0 as int,
                beta.0 as int,
            ),
            alpha.0 == LOST && beta.0 == WON ==> r.0 == negamax::<G>(
                old(board).cells(),
                maximizing_player,
                depth as int,
                old(self).max_depth,
            ),
            depth > 0 ==> final(self).best_move == old(self).best_move,
            depth == 0 && alpha.0 == LOST && beta.0 == WON ==> final(self).best_move == match decision::<G>(
                old(board).cells(),
                maximizing_player,
                old(self).max_depth,
            ) {
                Some(m) => Some(m),
                None => old(self).best_move,
            },
        decreases empty_count(old(board).cells()),
    {
        let ghost c = board.cells();
        let ghost md = self.max_depth;
        let ghost top = depth == 0 && alpha.0 == LOST && beta.0 == WON;
        let ghost first = self.best_move;
        proof {
            G::lemma_size(board);
            lemma_negamax_range::<G>(c, maximizing_player, depth as int, md);
        }
        if let Some(max_depth) = self.max_depth {
            if depth >= max_depth {
                return board.rate(maximizing_player);
            }
        }
        match board.result() {
            State::Winner(winner) => {
                if winner == maximizing_player {
                    Score::new(WON)
                } else {
                    Score::new(LOST)
                }
            },
            State::Draw => Score::new(TIE),
            State::InProgress => {
                let mut max_value = alpha;
                let moves = board.possible_moves();
                let n = moves.len();
                let mut i: usize = 0;
                while i < n
                    invariant
                        0 <= i <= n,
                        n == moves@.len(),
                        moves@ == G::moves_of(c),
                        board.valid(),
                        *board == *old(board),
                        c == old(board).cells(),
                        c.len() == G::size(),
                        self.max_depth == md,
                        md == old(self).max_depth,
                        G::outcome(c) == State::InProgress,
                        !(md is Some && depth >= md->0),
                        depth + empty_count(c) < usize::MAX,
                        LOST <= alpha.0 <= max_value.0 < beta.0 <= WON,
                        max_value.0 as int == if scan::<G>(c, maximizing_player, depth as int, md, i as int).0
                            > alpha.0 {
                            scan::<G>(c, maximizing_player, depth as int, md, i as int).0
                        } else {
                            alpha.0 as int
                        },
                        depth > 0 ==> self.best_move == first,
                        top ==> max_value.0 as int == scan::<G>(
                            c,
                            maximizing_player,
                            depth as int,
                            md,
                            i as int,
                        ).0,
                        top ==> self.best_move == match scan::<G>(
                            c,
                            maximizing_player,
                            depth as int,
                            md,
                            i as int,
                        ).1 {
                            Some(m) => Some(m),
                            None => first,
                        },
                        first == old(self).best_move,
                        top == (depth == 0 && alpha.0 == LOST && beta.0 == WON),
                    decreases n - i,
                {
                    let pos = moves[i];
                    proof {
                        assert(G::moves_of(c)[i as int] == pos);
                        assert(G::moves_of(c).contains(pos));
                        G::lemma_target(c, pos);
                        G::lemma_undo_target(c, pos, maximizing_player);
                        lemma_fill_cell(c, G::target(c, pos), maximizing_player);
                        lemma_scan_range::<G>(c, maximizing_player, depth as int, md, i as int + 1);
                    }
                    let ghost before = *board;
                    board.make_move(pos, maximizing_player);
                    let ghost after = *board;
                    let ghost next = board.cells();
                    assert(next == child::<G>(c, pos, maximizing_player));
                    let child_score = self.minmax(
                        board,
                        maximizing_player.opponent(),
                        beta.negate(),
                        max_value.negate(),
                        depth + 1,
                    );
                    let value = child_score.negate();
                    let ghost w = -negamax::<G>(
                        next,
                        opponent_of(maximizing_player),
                        depth + 1,
                        md,
                    );
                    proof {
                        lemma_negamax_range::<G>(
                            next,
                            opponent_of(maximizing_player),
                            depth + 1,
                            md,
                        );
                        assert(clamp(value.0 as int, max_value.0 as int, beta.0 as int) == clamp(
                            w,
                            max_value.0 as int,
                            beta.0 as int,
                        ));
                        let prev = scan::<G>(c, maximizing_player, depth as int, md, i as int);
                        assert(scan::<G>(c, maximizing_player, depth as int, md, i as int + 1) == if w
                            > prev.0 {
                            (w, Some(pos))
                        } else {
                            prev
                        });
                    }
                    board.undo_move(pos);
                    proof {
                        G::lemma_make_undo(&before, &after, board, pos, maximizing_player);
                    }
                    if value.0 > max_value.0 {
                        max_value = value;
                        if depth == 0 {
                            self.best_move = Some(pos);
                        }
                        if max_value.0 >= beta.0 {
                            proof {
                                lemma_scan_monotone::<G>(
                                    c,
                                    maximizing_player,
                                    depth as int,
                                    md,
                                    i as int + 1,
                                    n as int,
                                );
                                lemma_negamax_range::<G>(c, maximizing_player, depth as int, md);
                                if top {
                                    lemma_scan_won::<G>(
                                        c,
                                        maximizing_player,
                                        depth as int,
                                        md,
                                        i as int + 1,
                                        n as int,
                                    );
                                }
                            }
                            return max_value;
                        }
                    }
                    i = i + 1;
                }
                max_value
            },
        }
    }
}

/// Without a depth limit, the depth a board is searched from does not
/// change its value.
pub proof fn lemma_unlimited_depth<G: Game>(c: Seq<Position>, p: Player, d1: int, d2: int)
    ensures
        negamax::<G>(c, p, d1, None) == negamax::<G>(c, p, d2, None),
    decreases empty_count(c), 1nat, 0int,
{
    if G::outcome(c) == State::InProgress {
        lemma_unlimited_scan::<G>(c, p, d1, d2, G::moves_of(c).len() as int);
    }
}

pub proof fn lemma_unlimited_scan<G: Game>(c: Seq<Position>, p: Player, d1: int, d2: int, k: int)
    ensures
        scan::<G>(c, p, d1, None, k) == scan::<G>(c, p, d2, None, k),
    decreases empty_count(c), 0nat, k,
{
    if k > 0 {
        lemma_unlimited_scan::<G>(c, p, d1, d2, k - 1);
        let next = child::<G>(c, G::moves_of(c)[k - 1], p);
        if empty_count(next) < empty_count(c) {
            lemma_unlimited_depth::<G>(next, opponent_of(p), d1 + 1, d2 + 1);
        }
    }
}

/// A scan is worth at least the negated value of each board it looked at,
/// and exactly that of the board its move leads to; without a move it
/// finds a lost game.
pub proof fn lemma_scan_children<G: Game>(
    c: Seq<Position>,
    p: Player,
    depth: int,
    max_depth: Option<usize>,
    k: int,
)
    requires
        c.len() == G::size(),
        0 <= k <= G::moves_of(c).len(),
    ensures
        forall|i: int|
            0 <= i < k ==> scan::<G>(c, p, depth, max_depth, k).0 >= -negamax::<G>(
                #[trigger] child::<G>(c, G::moves_of(c)[i], p),
                opponent_of(p),
                depth + 1,
                max_depth,
            ),
        scan::<G>(c, p, depth, max_depth, k).1 matches Some(m) ==> scan::<G>(
            c,
            p,
            depth,
            max_depth,
            k,
        ).0 == -negamax::<G>(child::<G>(c, m, p), opponent_of(p), depth + 1, max_depth),
        scan::<G>(c, p, depth, max_depth, k).1 is None ==> scan::<G>(c, p, depth, max_depth, k).0
            == LOST,
    decreases k,
{
    if k > 0 {
        lemma_scan_children::<G>(c, p, depth, max_depth, k - 1);
        lemma_scan_range::<G>(c, p, depth, max_depth, k);
        let m = G::moves_of(c)[k - 1];
        assert(G::moves_of(c).contains(m));
        G::lemma_target(c, m);
        lemma_fill_cell(c, G::target(c, m), p);
    }
}

/// A player that searches without a depth limit keeps what its position is
/// worth: the board its move leads to is worth at least as much to it, and
/// so is every board that any reply of the opponent leads to. Where the
/// position is not lost, neither its move nor the reply loses the game.
pub proof fn lemma_perfect_keeps_value<G: Game>(c: Seq<Position>, p: Player, reply: usize)
    requires
        c.len() == G::size(),
        G::outcome(c) == State::InProgress,
        G::moves_of(c).len() > 0,
    ensures
        ({
            let v = negamax::<G>(c, p, 0, None);
            let c1 = child::<G>(c, perfect_move::<G>(c, p, None), p);
            let c2 = child::<G>(c1, reply, opponent_of(p));
            &&& -negamax::<G>(c1, opponent_of(p), 0, None) >= v
            &&& (G::outcome(c1) == State::InProgress && G::moves_of(c1).contains(reply))
                ==> negamax::<G>(c2, p, 0, None) >= v
            &&& v > LOST ==> G::outcome(c1) != State::Winner(opponent_of(p))
            &&& (v > LOST && G::outcome(c1) == State::InProgress && G::moves_of(c1).contains(reply))
                ==> G::outcome(c2) != State::Winner(opponent_of(p))
        }),
{
    let n = G::moves_of(c).len() as int;
    let q = opponent_of(p);
    let m = perfect_move::<G>(c, p, None);
    let c1 = child::<G>(c, m, p);
    let c2 = child::<G>(c1, reply, q);
    lemma_scan_children::<G>(c, p, 0, None, n);
    lemma_scan_range::<G>(c, p, 0, None, n);
    assert(G::moves_of(c).contains(m)) by {
        if decision::<G>(c, p, None) is None {
            assert(G::moves_of(c)[0] == m);
        }
    }
    let i = choose|i: int| 0 <= i < n && G::moves_of(c)[i] == m;
    assert(child::<G>(c, G::moves_of(c)[i], p) == c1);
    lemma_unlimited_depth::<G>(c1, q, 1, 0);
    G::lemma_target(c, m);
    assert(c1.len() == G::size());
    lemma_negamax_range::<G>(c1, q, 0, None);
    assert(-negamax::<G>(c1, q, 0, None) >= negamax::<G>(c, p, 0, None));
    if G::outcome(c1) == State::InProgress && G::moves_of(c1).contains(reply) {
        let n1 = G::moves_of(c1).len() as int;
        lemma_scan_children::<G>(c1, q, 0, None, n1);
        let j = choose|j: int| 0 <= j < n1 && G::moves_of(c1)[j] == reply;
        assert(child::<G>(c1, G::moves_of(c1)[j], q) == c2);
        lemma_unlimited_depth::<G>(c2, p, 1, 0);
        assert(negamax::<G>(c2, p, 0, None) >= negamax::<G>(c, p, 0, None));
    }
}

impl<G: Game> PerfectPlayer<G> {
    /// Searches the board from the top with the full window and returns the
    /// move the search settled on, or the first legal move when no move
    /// beats a lost game. The board is left as it was.
    pub fn choose_move(&mut self, board: &mut G, this_player: Player) -> (r: usize)
        requires
            old(board).valid(),
            G::moves_of(old(board).cells()).len() > 0,
        ensures
            *final(board) == *old(board),
            final(self).max_depth == old(self).max_depth,
            r == perfect_move::<G>(old(board).cells(), this_player, old(self).max_depth),
            G::moves_of(old(board).cells()).contains(r),
    {
        let ghost c = board.cells();
        proof {
            G::lemma_size(board);
            crate::state::lemma_empty_count_bound(board.cells());
        }
        self.best_move = None;
        self.minmax(board, this_player, Score::new(LOST), Score::new(WON), 0);
        let pos = match self.best_move {
            Some(m) => m,
            None => {
                let moves = board.possible_moves();
                moves[0]
            },
        };
        proof {
            if decision::<G>(c, this_player, self.max_depth) is Some {
                lemma_scan_range::<G>(c, this_player, 0, self.max_depth, G::moves_of(c).len() as int);
            } else {
                assert(G::moves_of(c)[0] == pos);
            }
        }
        pos
    }
}

impl<G: Game> GamePlayer<G> for PerfectPlayer<G> {
    /// Plays the move that [`PerfectPlayer::choose_move`] picks.
    fn next_move(&mut self, board: &mut G, this_player: Player)
        ensures
            final(board).cells() == old(board).cells().update(
                G::target(
                    old(board).cells(),
                    perfect_move::<G>(old(board).cells(), this_player, old(self).max_depth),
                ),
                Some(this_player),
            ),
            final(self).max_depth == old(self).max_depth,
    {
        let pos = self.choose_move(board, this_player);
        board.make_move(pos, this_player);
    }
}

} // verus!
