//! Perfect-play engines for two-player board games: a negamax search with
//! alpha-beta pruning, written once against the [`Game`] interface, and the
//! boards of tic-tac-toe and Connect-4 that implement it.
pub mod config;
pub mod connect4;
pub mod minmax;
pub mod player;
pub mod state;
pub mod tic_tac_toe;

pub use self::minmax::PerfectPlayer;
pub use self::state::{Player, Score, State};

use self::state::{empty_count, lemma_fill_cell, IgnorePlayer, Position};
use vstd::prelude::*;

verus! {

/// The winner that an outcome names, if any.
pub open spec fn winner_of(s: State) -> Option<Player> {
    match s {
        State::Winner(p) => Some(p),
        _ => None,
    }
}

/// A two-player, zero-sum game of perfect information played by putting
/// stones into the cells of a board. A move is a `usize` whose meaning is
/// the game's own; the cell it fills is `target`.
pub trait Game: Sized {
    /// The cells of the board, in index order.
    spec fn cells(&self) -> Seq<Position>;

    /// Whether the value is a well-formed board.
    spec fn valid(&self) -> bool;

    /// The number of cells of every board of the game.
    spec fn size() -> nat;

    /// Whether the stones lie as they can in play (in Connect-4: no stone
    /// above an empty cell).
    spec fn settled(c: Seq<Position>) -> bool;

    /// The legal moves, in the order in which the search tries them.
    spec fn moves_of(c: Seq<Position>) -> Seq<usize>;

    /// The outcome of the board.
    spec fn outcome(c: Seq<Position>) -> State;

    /// The static rating of the board for `p`.
    spec fn rating(c: Seq<Position>, p: Player) -> int;

    /// The cell that move `m` fills.
    spec fn target(c: Seq<Position>, m: usize) -> int;

    /// The cell that taking back move `m` clears.
    spec fn undo_target(c: Seq<Position>, m: usize) -> int;

    /// The depth at which the search stops by default, if any.
    spec fn default_depth() -> Option<usize>;

    /// A well-formed board has the game's number of cells; no game has more
    /// than 64, which keeps every search depth well inside `usize`.
    proof fn lemma_size(b: &Self)
        requires
            b.valid(),
        ensures
            b.cells().len() == Self::size(),
            Self::size() <= 64,
    ;

    /// A legal move fills a cell that was empty.
    proof fn lemma_target(c: Seq<Position>, m: usize)
        requires
            c.len() == Self::size(),
            Self::moves_of(c).contains(m),
        ensures
            0 <= Self::target(c, m) < c.len(),
            c[Self::target(c, m)] is None,
    ;

    /// Taking back a move clears the cell that it filled.
    proof fn lemma_undo_target(c: Seq<Position>, m: usize, p: Player)
        requires
            c.len() == Self::size(),
            Self::moves_of(c).contains(m),
        ensures
            Self::undo_target(c.update(Self::target(c, m), Some(p)), m) == Self::target(c, m),
    ;

    /// Play keeps a board settled.
    proof fn lemma_settled(c: Seq<Position>, m: usize, p: Player)
        requires
            c.len() == Self::size(),
            Self::settled(c),
            Self::moves_of(c).contains(m),
        ensures
            Self::settled(c.update(Self::target(c, m), Some(p))),
    ;

    /// On a settled board that is still open, some move is legal.
    proof fn lemma_has_move(c: Seq<Position>)
        requires
            c.len() == Self::size(),
            Self::settled(c),
            Self::outcome(c) == State::InProgress,
        ensures
            Self::moves_of(c).len() > 0,
    ;

    /// A rating lies between the scores of a lost and a won game.
    proof fn lemma_rating(c: Seq<Position>, p: Player)
        requires
            c.len() == Self::size(),
        ensures
            state::LOST <= Self::rating(c, p) <= state::WON,
    ;

    /// Making a move and taking it back gives the board it started from.
    proof fn lemma_make_undo(b1: &Self, b2: &Self, b3: &Self, m: usize, p: Player)
        requires
            b1.valid(),
            b2.valid(),
            b3.valid(),
            Self::moves_of(b1.cells()).contains(m),
            b2.cells() == b1.cells().update(Self::target(b1.cells(), m), Some(p)),
            b3.cells() == b2.cells().update(Self::undo_target(b2.cells(), m), None),
        ensures
            b3 == b1,
    ;

    fn empty() -> (r: Self)
        ensures
            r.valid(),
            r.cells() == Seq::new(Self::size(), |i: int| None::<Player>),
            Self::settled(r.cells()),
            Self::outcome(r.cells()) == State::InProgress,
    ;

    fn reasonable_search_depth() -> (r: Option<usize>)
        ensures
            r == Self::default_depth(),
    ;

    /// The legal moves, in the order in which they are best tried.
    fn possible_moves(&self) -> (r: Vec<usize>)
        requires
            self.valid(),
        ensures
            r@ == Self::moves_of(self.cells()),
    ;

    fn result(&self) -> (r: State)
        requires
            self.valid(),
        ensures
            r == Self::outcome(self.cells()),
    ;

    fn rate(&self, player: Player) -> (r: Score<IgnorePlayer>)
        requires
            self.valid(),
        ensures
            r.0 == Self::rating(self.cells(), player),
    ;

    fn make_move(&mut self, position: usize, player: Player)
        requires
            old(self).valid(),
            Self::moves_of(old(self).cells()).contains(position),
        ensures
            final(self).valid(),
            final(self).cells() == old(self).cells().update(
                Self::target(old(self).cells(), position),
                Some(player),
            ),
    ;

    fn undo_move(&mut self, position: usize)
        requires
            old(self).valid(),
            0 <= Self::undo_target(old(self).cells(), position) < Self::size(),
        ensures
            final(self).valid(),
            final(self).cells() == old(self).cells().update(
                Self::undo_target(old(self).cells(), position),
                None,
            ),
    ;
}

/// Lets `x` and `o` move in turn, `x` first, until the game is decided,
/// and returns the winner (`None` for a draw).
pub fn play<G: Game, A: GamePlayer<G>, B: GamePlayer<G>>(
    board: &mut G,
    x: &mut A,
    o: &mut B,
) -> (r: Option<Player>)
    requires
        old(board).valid(),
        G::settled(old(board).cells()),
        G::outcome(old(board).cells()) == State::InProgress,
    ensures
        final(board).valid(),
        G::outcome(final(board).cells()) != State::InProgress,
        r == winner_of(G::outcome(final(board).cells())),
{
    let mut current_player = Player::X;
    loop
        invariant
            board.valid(),
            G::settled(board.cells()),
            G::outcome(board.cells()) == State::InProgress,
        decreases empty_count(board.cells()),
    {
        proof {
            G::lemma_size(board);
            G::lemma_has_move(board.cells());
        }
        let ghost before = board.cells();
        if current_player == Player::X {
            x.next_move(board, current_player);
        } else {
            o.next_move(board, current_player);
        }
        proof {
            let m = choose|m: usize|
                G::moves_of(before).contains(m) && board.cells() == before.update(
                    G::target(before, m),
                    Some(current_player),
                );
            G::lemma_target(before, m);
            G::lemma_settled(before, m, current_player);
            lemma_fill_cell(before, G::target(before, m), current_player);
        }
        match board.result() {
            State::Winner(player) => return Some(player),
            State::Draw => {
                return None;
            },
            State::InProgress => {},
        }
        current_player = current_player.opponent();
    }
}

/// A strategy that makes one move for a side.
pub trait GamePlayer<G: Game> {
    fn next_move(&mut self, board: &mut G, this_player: Player)
        requires
            old(board).valid(),
            G::moves_of(old(board).cells()).len() > 0,
        ensures
            final(board).valid(),
            exists|m: usize|
                G::moves_of(old(board).cells()).contains(m) && final(board).cells() == old(
                    board,
                ).cells().update(G::target(old(board).cells(), m), Some(this_player)),
    ;
}

} // verus!
