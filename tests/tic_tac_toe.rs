use minmax::tic_tac_toe::win_table::{self, WinTable};
use minmax::tic_tac_toe::TicTacToe;
use minmax::{Game, Player, State};

fn board_of(cells: &str) -> TicTacToe {
    let mut board = TicTacToe::empty();
    for (i, c) in cells.chars().filter(|c| !c.is_whitespace()).enumerate() {
        match c {
            'X' => board.set(i, Some(Player::X)),
            'O' => board.set(i, Some(Player::O)),
            _ => board.set(i, None),
        }
    }
    board
}

#[test]
fn board_board_field() {
    let mut board = TicTacToe::empty();
    board.set(0, None);
    board.set(8, Some(Player::X));
    board.set(4, Some(Player::O));
    board.set(5, Some(Player::X));

    let expected = [
        None,
        None,
        None,
        None,
        Some(Player::O),
        Some(Player::X),
        None,
        None,
        Some(Player::X),
    ];

    board
        .iter()
        .into_iter()
        .zip(expected.into_iter())
        .enumerate()
        .for_each(|(idx, (actual, expected))| assert_eq!(actual, expected, "Position {idx}"));
}

#[test]
fn board_field() {
    let mut board = board_of("_________");
    board.set(8, Some(Player::X));
    board.set(4, Some(Player::O));
    board.set(5, Some(Player::X));
    let cells = board.iter();
    assert_eq!(cells.len(), 9);
    for (idx, cell) in cells.into_iter().enumerate() {
        let expected = match idx {
            4 => Some(Player::O),
            5 | 8 => Some(Player::X),
            _ => None,
        };
        assert_eq!(cell, expected, "Position {idx}");
    }
}

#[test]
fn empty_encoding() {
    let board = TicTacToe::empty();
    assert_eq!(board.to_bits(), 0x0002AAAA);
    assert!(board.iter().iter().all(|c| c.is_none()));
    assert_eq!(board.result(), State::InProgress);
}

#[test]
fn set_packs_two_bits() {
    let mut board = TicTacToe::empty();
    board.set(0, Some(Player::X));
    assert_eq!(board.to_bits(), 0x0002AAA8);
    board.set(8, Some(Player::O));
    assert_eq!(board.to_bits(), 0x0001AAA8);
    assert_eq!(board.get(0), Some(Player::X));
    assert_eq!(board.get(8), Some(Player::O));
    assert_eq!(board.get(4), None);
}

#[test]
fn from_bits_rejects_code_three() {
    assert!(TicTacToe::from_bits(0x0002AAAA).is_some());
    assert!(TicTacToe::from_bits(0x0002AAAB).is_none());
    assert!(TicTacToe::from_bits(0x0003AAAA).is_none());
    assert!(TicTacToe::from_bits(0x0006AAAA).is_none());
    assert!(TicTacToe::from_bits(0).is_some());
}

#[test]
fn result_by_scan() {
    assert_eq!(board_of("XXX OO_ ___").result(), State::Winner(Player::X));
    assert_eq!(board_of("XX_ OOO X__").result(), State::Winner(Player::O));
    assert_eq!(board_of("X_O XO_ O_X").result(), State::Winner(Player::O));
    assert_eq!(board_of("X_O _XO __X").result(), State::Winner(Player::X));
    assert_eq!(board_of("XOX XOO OXX").result(), State::Draw);
    assert_eq!(board_of("XO_ ___ ___").result(), State::InProgress);
    // a full board with a line is won, not drawn
    assert_eq!(board_of("XXX OOX OXO").result(), State::Winner(Player::X));
}

#[test]
fn win_table_matches_scan() {
    let table = WinTable::new();
    let mut boards = 0;
    for bits in 0..(1u32 << 18) {
        if let Some(board) = TicTacToe::from_bits(bits) {
            boards += 1;
            assert_eq!(win_table::result(&table, &board), board.result(), "bits {bits:X}");
        }
    }
    assert_eq!(boards, 19683);
    assert_eq!(win_table::result(&table, &board_of("XX_ OOO X__")), State::Winner(Player::O));
    assert_eq!(table.entry(board_of("XOX XOO OXX").to_bits()), 3);
}

#[test]
fn ttt_make_undo_restores() {
    let mut board = board_of("X_O _X_ ___");
    let before = board.to_bits();
    for position in board.possible_moves() {
        board.make_move(position, Player::O);
        assert_ne!(board.to_bits(), before);
        board.undo_move(position);
        assert_eq!(board.to_bits(), before);
    }
}

#[test]
fn ttt_possible_moves_in_order() {
    let board = board_of("X_O _X_ __O");
    assert_eq!(board.possible_moves(), vec![1, 3, 5, 6, 7]);
}
