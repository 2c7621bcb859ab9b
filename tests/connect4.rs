use minmax::connect4::board::Connect4;
use minmax::connect4::exchange::{board_winner, create_board, map_idx, play_move};
use minmax::{Game, GamePlayer, PerfectPlayer, Player, Score, State};

fn parse_board(board: &str) -> Connect4 {
    let cells: Vec<Option<Player>> = board
        .chars()
        .filter(|char| !char.is_whitespace())
        .map(|char| match char {
            'X' => Some(Player::X),
            'O' => Some(Player::O),
            '_' => None,
            char => panic!("Invalid char in board: `{char}`"),
        })
        .collect();
    assert_eq!(cells.len(), 28, "not enough positions provided: {}", cells.len());
    let mut result = Connect4::new();
    for (i, cell) in cells.into_iter().enumerate() {
        result.set_pos(i, cell);
    }
    result
}

fn test_result(board: &str, state: State) {
    let board = parse_board(board);
    assert_eq!(board.result(), state);
}

fn test_rate(board: &str, player: Player, score: Score<minmax::state::IgnorePlayer>) {
    let board = parse_board(board);
    assert_eq!(board.rate(player).0, score.0);
}

#[test]
fn board_draw() {
    test_result(
        "
        XOOOXOX
        XOOOXOX
        OXXXOXO
        XOOOXXX
        ",
        State::Draw,
    );
}

#[test]
fn board_full_winner() {
    test_result(
        "
        XOOOXOX
        XOOOXOX
        OXXXOXO
        XOOOXOX
        ",
        State::Winner(Player::O),
    );
}

#[test]
fn board_three_rows() {
    test_result(
        "
        XXX_OOO
        _XXX___
        X_OOO__
        OOO____
        ",
        State::InProgress,
    );
}

#[test]
fn draw() {
    test_result("XOOOXOX XOOOXOX OXXXOXO XOOOXXX", State::Draw);
}

#[test]
fn full_winner() {
    test_result("XOOOXOX XOOOXOX OXXXOXO XOOOXOX", State::Winner(Player::O));
}

#[test]
fn three_rows() {
    test_result("XXX_OOO _XXX___ X_OOO__ OOO____", State::InProgress);
}

#[test]
fn rate_alone_edge() {
    test_rate(
        "
        _______
        _______
        _______
        ______X
        ",
        Player::X,
        Score::new(3),
    )
}

#[test]
fn rate_alone_center() {
    test_rate(
        "
        _______
        _______
        _______
        ___X___
        ",
        Player::X,
        Score::new(7),
    )
}

#[test]
fn rate_pair_center() {
    test_rate(
        "
        _______
        _______
        _______
        O__X___
        ",
        Player::X,
        Score::new(4),
    )
}

#[test]
fn rate_pair_edge() {
    test_rate(
        "
        _______
        _______
        _______
        O_____X
        ",
        Player::X,
        Score::new(0),
    )
}

#[test]
fn rate_center_beats_corner() {
    let center = parse_board("_______ _______ _______ ___X___");
    let corner = parse_board("_______ _______ _______ X______");
    assert!(center.rate(Player::X).0 > corner.rate(Player::X).0);
    assert_eq!(corner.rate(Player::X).0, 3);
}

#[test]
fn rate_swapped_stones() {
    let board = parse_board("_______ _______ __O____ OXX_X__");
    let swapped = parse_board("_______ _______ __X____ XOO_O__");
    assert_eq!(board.rate(Player::X).0, swapped.rate(Player::O).0);
    assert_eq!(board.rate(Player::X).0, -board.rate(Player::O).0);
    assert_eq!(board.rate(Player::X).0, 4 + 6 + 6 - 3 - 6);
}

#[test]
fn result_lines() {
    test_result("X______ X______ X______ X______", State::Winner(Player::X));
    test_result("_______ _______ _______ ___OOOO", State::Winner(Player::O));
    test_result("___X___ __X____ _X_____ X______", State::Winner(Player::X));
    test_result("O______ _O_____ __O____ ___O___", State::Winner(Player::O));
    test_result("_______ _______ _______ XXX_OOO", State::InProgress);
    test_result("_______ _______ _______ _______", State::InProgress);
}

#[test]
fn drop_into_columns() {
    let board = parse_board("_______ ___X___ ___O___ O__X___");
    assert_eq!(board.drop_player(3), 3);
    assert_eq!(board.drop_player(0), 14);
    assert_eq!(board.drop_player(1), 22);
}

#[test]
fn possible_moves_center_first() {
    let board = parse_board("___X___ ___O___ ___X___ X__O___");
    assert_eq!(board.possible_moves(), vec![2, 4, 1, 5, 0, 6]);
    let empty = Connect4::new();
    assert_eq!(empty.possible_moves(), vec![3, 2, 4, 1, 5, 0, 6]);
}

#[test]
fn connect4_make_undo_restores() {
    let mut board = parse_board("_______ _______ __O____ OXX_X__");
    let before: Vec<_> = (0..28).map(|i| board.get(i)).collect();
    for column in board.possible_moves() {
        board.make_move(column, Player::O);
        assert_ne!((0..28).map(|i| board.get(i)).collect::<Vec<_>>(), before);
        board.undo_move(column);
        assert_eq!((0..28).map(|i| board.get(i)).collect::<Vec<_>>(), before);
    }
}

#[test]
fn connect4_block_open_three() {
    for depth in [1, 2, 4] {
        let mut board = parse_board("_______ _______ OO_____ XXX____");
        let mut player = PerfectPlayer::<Connect4>::new(false).with_max_depth(Some(depth));
        player.next_move(&mut board, Player::O);
        assert_eq!(board.get(24), Some(Player::O), "depth {depth}");
    }
}

#[test]
fn connect4_win_open_three() {
    for depth in [1, 2, 4] {
        let mut board = parse_board("_______ _______ OO_____ XXX____");
        board.set_pos(16, Some(Player::O));
        let mut player = PerfectPlayer::<Connect4>::new(false).with_max_depth(Some(depth));
        player.next_move(&mut board, Player::X);
        assert_eq!(board.get(24), Some(Player::X), "depth {depth}");
        if depth >= 2 {
            assert_eq!(board.result(), State::Winner(Player::X));
        }
    }
}

#[test]
fn exchange_map_idx() {
    assert_eq!(map_idx(0), 21);
    assert_eq!(map_idx(6), 27);
    assert_eq!(map_idx(10), 17);
    assert_eq!(map_idx(17), 10);
    assert_eq!(map_idx(27), 6);
    for i in 0..28 {
        assert_eq!(map_idx(map_idx(i)), i);
    }
}

#[test]
fn exchange_create_board() {
    let mut codes = vec![2u8; 28];
    codes[0] = 0;
    codes[8] = 1;
    let board = create_board(&codes).unwrap();
    assert_eq!(board.get(21), Some(Player::X));
    assert_eq!(board.get(15), Some(Player::O));
    assert_eq!(board.get(0), None);
    codes[3] = 3;
    assert!(create_board(&codes).is_none());
    assert!(create_board(&[2u8; 27]).is_none());
}

#[test]
fn exchange_play_move() {
    // X holds the three bottom-left cells of the host's layout.
    let mut codes = vec![2u8; 28];
    codes[0] = 0;
    codes[1] = 0;
    codes[2] = 0;
    codes[7] = 1;
    codes[8] = 1;
    assert_eq!(play_move(0, &codes), Some(3));
    assert_eq!(play_move(1, &codes), Some(3));
    assert_eq!(play_move(2, &codes), None);
    assert_eq!(play_move(-1, &codes), None);
    codes[5] = 7;
    assert_eq!(play_move(0, &codes), None);
}

#[test]
fn exchange_board_winner() {
    let mut codes = vec![2u8; 28];
    assert_eq!(board_winner(&codes), Some(2));
    codes[0] = 1;
    codes[7] = 1;
    codes[14] = 1;
    codes[21] = 1;
    assert_eq!(board_winner(&codes), Some(1));
    codes[0] = 0;
    codes[1] = 0;
    codes[2] = 0;
    codes[3] = 0;
    assert_eq!(board_winner(&codes), Some(0));
    codes[4] = 9;
    assert_eq!(board_winner(&codes), None);
}
