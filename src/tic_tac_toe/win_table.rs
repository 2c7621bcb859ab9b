//! The outcome of every tic-tac-toe board, computed once into a table
//! indexed by the board's encoding.
use super::board::{cells_of, ttt_outcome, valid_bits, TicTacToe};
use crate::{Game, Player, State};
use vstd::prelude::*;

verus! {

/// The number of encodings: two bits for each of the nine cells.
pub const WIN_TABLE_SIZE: usize = 0x40000;

/// The code that a table entry gives an outcome: 0 for a win of `X`, 1 for a
/// win of `O`, 2 for a game in progress and 3 for a draw.
pub open spec fn outcome_code(s: State) -> u8 {
    match s {
        State::Winner(Player::X) => 0,
        State::Winner(Player::O) => 1,
        State::InProgress => 2,
        State::Draw => 3,
    }
}

/// The outcome of each encoding of a board (0 for the encodings of no board).
pub struct WinTable {
    entries: Vec<u8>,
}

impl View for WinTable {
    type V = Seq<u8>;

    closed spec fn view(&self) -> Seq<u8> {
        self.entries@
    }
}

impl WinTable {
    /// Each encoding of a board holds the code of the outcome that scanning
    /// the board's rows, columns and diagonals finds.
    pub open spec fn wf(&self) -> bool {
        &&& self@.len() == WIN_TABLE_SIZE
        &&& forall|i: int|
            0 <= i < WIN_TABLE_SIZE && valid_bits(i as u32) ==> #[trigger] self@[i] == outcome_code(
                ttt_outcome(cells_of(i as u32)),
            )
    }

    fn code(s: State) -> (r: u8)
        ensures
            r == outcome_code(s),
    {
        match s {
            State::Winner(Player::X) => 0,
            State::Winner(Player::O) => 1,
            State::InProgress => 2,
            State::Draw => 3,
        }
    }

    /// Evaluates every encoding.
    pub fn new() -> (r: Self)
        ensures
            r.wf(),
    {
        let mut entries: Vec<u8> = Vec::with_capacity(WIN_TABLE_SIZE);
        let mut bits: u32 = 0;
        while bits < 0x40000
            invariant
                0 <= bits <= 0x40000,
                entries@.len() == bits,
                forall|i: int|
                    0 <= i < bits && valid_bits(i as u32) ==> #[trigger] entries@[i]
                        == outcome_code(ttt_outcome(cells_of(i as u32))),
            decreases 0x40000 - bits,
        {
            let code = match TicTacToe::from_bits(bits) {
                Some(board) => WinTable::code(board.result()),
                None => 0,
            };
            entries.push(code);
            bits = bits + 1;
        }
        WinTable { entries }
    }

    /// The code stored for `bits`.
    pub fn entry(&self, bits: u32) -> (r: u8)
        requires
            bits < WIN_TABLE_SIZE,
            self@.len() == WIN_TABLE_SIZE,
        ensures
            r == self@[bits as int],
    {
        self.entries[bits as usize]
    }
}

/// For every board, the table holds the code of the outcome that scanning
/// the board's rows, columns and diagonals finds.
pub proof fn lemma_table_matches_scan(table: &WinTable, board: &TicTacToe)
    requires
        table.wf(),
        board.valid(),
    ensures
        table@[board.encoding() as int] == outcome_code(ttt_outcome(board.cells())),
{
    board.lemma_encoding();
}

/// The outcome of `board`, looked up in `table`: the same that scanning
/// the board finds.
pub fn result(table: &WinTable, board: &TicTacToe) -> (r: State)
    requires
        table.wf(),
        board.valid(),
    ensures
        r == ttt_outcome(board.cells()),
{
    proof {
        board.lemma_encoding();
        lemma_table_matches_scan(table, board);
    }
    let bits = board.to_bits();
    match table.entry(bits) {
        0 => State::Winner(Player::X),
        1 => State::Winner(Player::O),
        2 => State::InProgress,
        _ => State::Draw,
    }
}

} // verus!
