//! Simple strategies to play against: the first legal move, or a random one.
use rand::Rng;

use crate::{Game, GamePlayer, Player};
use vstd::prelude::*;

verus! {

/// Relies on `rand::thread_rng` and `Rng::gen_range`: a number drawn from
/// `0..n`, which panics only on an empty range.
#[verifier::external_body]
fn random_below(n: usize) -> (r: usize)
    requires
        n > 0,
    ensures
        r < n,
{
    rand::thread_rng().gen_range(0..n)
}

/// Always plays the first legal move.
#[derive(Clone, Copy, Default)]
pub struct GreedyPlayer;

impl<G: Game> GamePlayer<G> for GreedyPlayer {
    fn next_move(&mut self, board: &mut G, this_player: Player)
        ensures
            final(board).cells() == old(board).cells().update(
                G::target(old(board).cells(), G::moves_of(old(board).cells())[0]),
                Some(this_player),
            ),
    {
        let moves = board.possible_moves();
        let first_free = moves[0];
        assert(G::moves_of(board.cells()).contains(first_free));
        board.make_move(first_free, this_player);
    }
}

/// Plays a legal move drawn at random.
#[derive(Clone, Copy, Default)]
pub struct RandomPlayer;

impl<G: Game> GamePlayer<G> for RandomPlayer {
    fn next_move(&mut self, board: &mut G, this_player: Player) {
        let moves = board.possible_moves();
        let selected = random_below(moves.len());
        assert(G::moves_of(board.cells()).contains(moves[selected as int]));
        board.make_move(moves[selected], this_player);
    }
}

} // verus!
