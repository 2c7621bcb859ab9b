//! Tic-tac-toe on a board of nine cells, row by row from the top left.
mod board;
mod game;
pub mod win_table;

pub use board::TicTacToe;
pub use board::{cell_of, cells_of, field, ttt_outcome, valid_bits};
