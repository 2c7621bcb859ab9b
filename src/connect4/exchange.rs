//! The board format of a host application: 28 codes, one per cell (0 for
//! `X`, 1 for `O`, 2 for empty), with the rows in the opposite order.
//!
//! ```text
//! 21 22 23 24 25 26 27
//! 14 15 16 17 18 19 20
//!  7  8  9 10 11 12 13
//!  0  1  2  3  4  5  6
//! ```
use super::board::{column_order, drop_target, lemma_free_columns, Connect4};
use crate::minmax::perfect_move;
use crate::state::Position;
use crate::{Game, PerfectPlayer, Player, State};
use vstd::prelude::*;

verus! {

/// The cell of the other layout that cell `i` of one layout stands for:
/// the same column, the mirrored row.
pub open spec fn mirror(i: int) -> int {
    7 * (3 - i / 7) + i % 7
}

/// The cell that a code stands for.
pub open spec fn decode(code: u8) -> Position {
    if code == 0 {
        Some(Player::X)
    } else if code == 1 {
        Some(Player::O)
    } else {
        None
    }
}

/// The board that `codes` describes.
pub open spec fn board_of(codes: Seq<u8>) -> Seq<Position> {
    Seq::new(28, |i: int| decode(codes[mirror(i)]))
}

/// Whether `codes` describes a board: 28 codes, each below 3.
pub open spec fn valid_codes(codes: Seq<u8>) -> bool {
    codes.len() == 28 && forall|i: int| 0 <= i < 28 ==> #[trigger] codes[i] < 3
}

/// The code that reports an outcome: the winner's code, or 2.
pub open spec fn winner_code(s: State) -> i32 {
    match s {
        State::Winner(Player::X) => 0,
        State::Winner(Player::O) => 1,
        _ => 2,
    }
}

pub proof fn lemma_mirror(i: int)
    requires
        0 <= i < 28,
    ensures
        0 <= mirror(i) < 28,
        mirror(mirror(i)) == i,
{
}

/// Maps a cell of one layout to the other; applied twice it gives the cell
/// back.
pub fn map_idx(i: usize) -> (r: usize)
    requires
        i < 28,
    ensures
        r == mirror(i as int),
        r < 28,
{
    if i < 7 {
        i + 21
    } else if i < 14 {
        i + 7
    } else if i < 21 {
        i - 7
    } else {
        i - 21
    }
}

/// The board that `codes` describes, or `None` when they describe none.
pub fn create_board(codes: &[u8]) -> (r: Option<Connect4>)
    ensures
        r is Some <==> valid_codes(codes@),
        r matches Some(b) ==> b.cells() == board_of(codes@),
{
    if codes.len() != 28 {
        return None;
    }
    let mut board = Connect4::new();
    let mut i: usize = 0;
    while i < 28
        invariant
            0 <= i <= 28,
            codes@.len() == 28,
            forall|j: int| 0 <= j < i ==> #[trigger] codes@[j] < 3,
            board.cells().len() == 28,
            forall|j: int|
                0 <= j < 28 ==> #[trigger] board.cells()[j] == if 0 <= mirror(j) < i {
                    decode(codes@[mirror(j)])
                } else {
                    None
                },
        decreases 28 - i,
    {
        let value = match Player::from_u8(codes[i]) {
            Ok(value) => value,
            Err(()) => return None,
        };
        let rust_index = map_idx(i);
        proof {
            assert forall|j: int| 0 <= j < 28 && mirror(j) == i implies j == rust_index by {
                lemma_mirror(j);
            }
        }
        board.set_pos(rust_index, value);
        i = i + 1;
    }
    assert(board.cells() =~= board_of(codes@));
    Some(board)
}

/// For the player with code `current_player` (0 for `X`, 1 for `O`), the
/// cell in the host's layout where a perfect player's next stone comes to
/// rest; `None` when the player's code or the board is not valid, or when
/// no move is left.
pub fn play_move(current_player: i8, codes: &[u8]) -> (r: Option<i32>)
    ensures
        r is Some <==> (0 <= current_player <= 1 && valid_codes(codes@) && Connect4::moves_of(
            board_of(codes@),
        ).len() > 0),
        r matches Some(k) ==> k == mirror(
            drop_target(
                board_of(codes@),
                perfect_move::<Connect4>(
                    board_of(codes@),
                    if current_player == 0 {
                        Player::X
                    } else {
                        Player::O
                    },
                    Connect4::default_depth(),
                ) as int,
            ),
        ),
{
    let mut board = match create_board(codes) {
        Some(board) => board,
        None => return None,
    };
    let player = match current_player {
        0 => Player::X,
        1 => Player::O,
        _ => return None,
    };
    if board.possible_moves().len() == 0 {
        return None;
    }
    let mut perfect: PerfectPlayer<Connect4> = PerfectPlayer::new(false);
    let column = perfect.choose_move(&mut board, player);
    proof {
        lemma_free_columns(board.cells(), column_order(), column);
        let k = choose|k: int| 0 <= k < 7 && column_order()[k] == column;
    }
    let cell = board.drop_player(column);
    Some(map_idx(cell) as i32)
}

/// The code of the outcome of the board that `codes` describes: 0 or 1 for
/// the winner, 2 for a draw or a game in progress; `None` when `codes`
/// describe no board.
pub fn board_winner(codes: &[u8]) -> (r: Option<i32>)
    ensures
        r is Some <==> valid_codes(codes@),
        r matches Some(k) ==> k == winner_code(Connect4::outcome(board_of(codes@))),
{
    let board = match create_board(codes) {
        Some(board) => board,
        None => return None,
    };
    match board.result() {
        State::Draw => Some(2),
        State::InProgress => Some(2),
        State::Winner(Player::X) => Some(0),
        State::Winner(Player::O) => Some(1),
    }
}

} // verus!
