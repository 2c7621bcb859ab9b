//! Connect-4 on a board seven columns wide and four rows high.
pub mod board;
pub mod exchange;

pub use board::Connect4;
