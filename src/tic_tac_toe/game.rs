use super::board::{ttt_outcome, TicTacToe};
use crate::state::{empty_count, lemma_fill_cell, lemma_has_empty_cell};
use crate::{winner_of, Game, GamePlayer, Player, State};
use vstd::prelude::*;

verus! {

impl TicTacToe {
    /// Lets `x` and `o` move in turn, `x` first, for at most nine moves, and
    /// returns the winner (`None` for a draw).
    pub fn play<A: GamePlayer<TicTacToe>, B: GamePlayer<TicTacToe>>(
        &mut self,
        x: &mut A,
        o: &mut B,
    ) -> (r: Option<Player>)
        requires
            old(self).valid(),
            ttt_outcome(old(self).cells()) == State::InProgress,
        ensures
            final(self).valid(),
            ttt_outcome(final(self).cells()) != State::InProgress,
            r == winner_of(ttt_outcome(final(self).cells())),
    {
        let mut current_player = Player::X;
        let mut i: usize = 0;
        proof {
            TicTacToe::lemma_size(self);
            crate::state::lemma_empty_count_bound(self.cells());
        }
        while i < 9
            invariant
                0 <= i <= 9,
                self.valid(),
                self.cells().len() == 9,
                ttt_outcome(self.cells()) == State::InProgress,
                empty_count(self.cells()) + i <= 9,
            decreases 9 - i,
        {
            proof {
                TicTacToe::lemma_has_move(self.cells());
            }
            let ghost before = self.cells();
            if current_player == Player::X {
                x.next_move(self, current_player);
            } else {
                o.next_move(self, current_player);
            }
            proof {
                let m = choose|m: usize|
                    TicTacToe::moves_of(before).contains(m) && self.cells() == before.update(
                        TicTacToe::target(before, m),
                        Some(current_player),
                    );
                TicTacToe::lemma_target(before, m);
                TicTacToe::lemma_size(self);
                lemma_fill_cell(before, m as int, current_player);
            }
            match self.result() {
                State::Winner(player) => return Some(player),
                State::Draw => {
                    return None;
                },
                State::InProgress => {},
            }
            current_player = current_player.opponent();
            i = i + 1;
        }
        proof {
            let j = choose|j: int| 0 <= j < self.cells().len() && !(self.cells()[j] is Some);
            lemma_has_empty_cell(self.cells(), j);
        }
        None
    }
}

} // verus!
