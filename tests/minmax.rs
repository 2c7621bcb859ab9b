use minmax::connect4::board::Connect4;
use minmax::player::{GreedyPlayer, RandomPlayer};
use minmax::state::{IgnorePlayer, LOST, TIE, WON};
use minmax::tic_tac_toe::TicTacToe;
use minmax::{play, Game, GamePlayer, PerfectPlayer, Player, Score, State};

fn assert_win_ratio<G: Game, X: GamePlayer<G>, O: GamePlayer<G>>(
    runs: u64,
    x_win_ratio: f64,
    x: impl Fn() -> X,
    o: impl Fn() -> O,
) {
    let mut results = [0u64, 0, 0];

    for _ in 0..runs {
        let result = play(&mut G::empty(), &mut x(), &mut o());
        let idx = Player::as_u8(result);
        results[idx as usize] += 1;
    }

    let total = results.iter().copied().sum::<u64>();

    let ratio = (total as f64) / (results[0] as f64);
    println!("{ratio} >= {x_win_ratio}");
    assert!(ratio >= x_win_ratio);
}

fn assert_never_loses<G: Game, X: GamePlayer<G>, O: GamePlayer<G>>(
    runs: u64,
    x: impl Fn() -> X,
    o: impl Fn() -> O,
) {
    for _ in 0..runs {
        let result = play(&mut G::empty(), &mut x(), &mut o());
        assert_ne!(result, Some(Player::O));
    }
}

#[test]
fn minmax_perfect_always_beats_greedy() {
    assert_win_ratio::<TicTacToe, _, _>(1, 1.0, || PerfectPlayer::new(false), || GreedyPlayer);
    assert_win_ratio::<Connect4, _, _>(
        1,
        1.0,
        || PerfectPlayer::new(false).with_max_depth(Some(8)),
        || GreedyPlayer,
    );
}

#[test]
fn minmax_perfect_beats_random() {
    assert_win_ratio::<TicTacToe, _, _>(10, 0.95, || PerfectPlayer::new(false), || RandomPlayer);
    assert_win_ratio::<Connect4, _, _>(
        5,
        0.95,
        || PerfectPlayer::new(false).with_max_depth(Some(7)),
        || RandomPlayer,
    );
}

#[test]
fn good_beat_bad() {
    assert_win_ratio::<TicTacToe, _, _>(
        1,
        1.0,
        || PerfectPlayer::new(false).with_max_depth(Some(7)),
        || PerfectPlayer::new(false).with_max_depth(Some(5)),
    );
    assert_win_ratio::<Connect4, _, _>(
        1,
        1.0,
        || PerfectPlayer::new(false).with_max_depth(Some(7)),
        || PerfectPlayer::new(false).with_max_depth(Some(5)),
    );
}

#[test]
fn mod_perfect_always_beats_greedy() {
    assert_win_ratio::<TicTacToe, _, _>(20, 1.0, || PerfectPlayer::new(false), || GreedyPlayer);
}

#[test]
fn mod_perfect_beats_random() {
    assert_win_ratio::<TicTacToe, _, _>(10, 0.95, || PerfectPlayer::new(false), || RandomPlayer);
}

#[test]
fn deeper_connect4_beats_shallower() {
    let mut board = Connect4::new();
    let result = play(
        &mut board,
        &mut PerfectPlayer::<Connect4>::new(false).with_max_depth(Some(7)),
        &mut PerfectPlayer::<Connect4>::new(false).with_max_depth(Some(5)),
    );
    assert_eq!(result, Some(Player::X));
}

#[test]
fn perfect_never_loses_tic_tac_toe() {
    assert_never_loses::<TicTacToe, _, _>(3, || PerfectPlayer::new(false), || GreedyPlayer);
    assert_never_loses::<TicTacToe, _, _>(30, || PerfectPlayer::new(false), || RandomPlayer);
    // and as the second player
    for _ in 0..30 {
        let result = play(
            &mut TicTacToe::empty(),
            &mut RandomPlayer,
            &mut PerfectPlayer::<TicTacToe>::new(false),
        );
        assert_ne!(result, Some(Player::X));
    }
    let result = play(
        &mut TicTacToe::empty(),
        &mut GreedyPlayer,
        &mut PerfectPlayer::<TicTacToe>::new(false),
    );
    assert_ne!(result, Some(Player::X));
}

#[test]
fn tic_tac_toe_is_a_draw() {
    let mut board = TicTacToe::empty();
    let mut player = PerfectPlayer::<TicTacToe>::new(false);
    let score = player.minmax(&mut board, Player::X, Score::new(LOST), Score::new(WON), 0);
    assert_eq!(score.0, TIE);
    assert_eq!(board.to_bits(), TicTacToe::empty().to_bits());
    let result = play(
        &mut TicTacToe::empty(),
        &mut PerfectPlayer::<TicTacToe>::new(false),
        &mut PerfectPlayer::<TicTacToe>::new(false),
    );
    assert_eq!(result, None);
}

#[test]
fn tic_tac_toe_play_nine_moves() {
    let mut board = TicTacToe::empty();
    let result = board.play(&mut PerfectPlayer::new(false), &mut GreedyPlayer);
    assert_eq!(result, Some(Player::X));
    assert_eq!(board.result(), State::Winner(Player::X));
}

/// The plain negamax search, without pruning: the value and the first best
/// move at the top.
fn unpruned<G: Game>(
    board: &mut G,
    player: Player,
    depth: usize,
    max_depth: Option<usize>,
    best: &mut Option<usize>,
) -> i32 {
    if let Some(max_depth) = max_depth {
        if depth >= max_depth {
            return board.rate(player).0;
        }
    }
    match board.result() {
        State::Winner(winner) => {
            if winner == player {
                WON
            } else {
                LOST
            }
        }
        State::Draw => TIE,
        State::InProgress => {
            let mut max_value = LOST;
            for pos in board.possible_moves() {
                board.make_move(pos, player);
                let value = -unpruned(board, player.opponent(), depth + 1, max_depth, best);
                board.undo_move(pos);
                if value > max_value {
                    max_value = value;
                    if depth == 0 {
                        *best = Some(pos);
                    }
                }
            }
            max_value
        }
    }
}

fn assert_same_as_unpruned<G: Game>(board: &mut G, player: Player, max_depth: Option<usize>) {
    let mut best = None;
    let expected = unpruned(board, player, 0, max_depth, &mut best);
    let mut perfect = PerfectPlayer::<G>::new(false).with_max_depth(max_depth);
    let score = perfect.minmax(board, player, Score::new(LOST), Score::new(WON), 0);
    assert_eq!(score.0, expected);
    assert_eq!(perfect.best_move, best);
}

#[test]
fn pruning_changes_nothing() {
    let mut ttt = TicTacToe::empty();
    ttt.set(4, Some(Player::X));
    assert_same_as_unpruned(&mut ttt, Player::O, None);
    ttt.set(0, Some(Player::O));
    assert_same_as_unpruned(&mut ttt, Player::X, None);
    assert_same_as_unpruned(&mut ttt, Player::X, Some(3));

    let mut c4 = Connect4::new();
    assert_same_as_unpruned(&mut c4, Player::X, Some(4));
    c4.set_pos(24, Some(Player::X));
    c4.set_pos(23, Some(Player::O));
    c4.set_pos(17, Some(Player::X));
    assert_same_as_unpruned(&mut c4, Player::O, Some(5));
    assert_same_as_unpruned(&mut c4, Player::X, Some(3));
}

#[test]
fn perfect_player_settings() {
    let player = PerfectPlayer::<Connect4>::new(true);
    assert_eq!(player.max_depth, Some(11));
    assert!(player.print_time);
    assert_eq!(player.best_move, None);
    let player = player.with_max_depth(Some(3));
    assert_eq!(player.max_depth, Some(3));
    assert_eq!(PerfectPlayer::<TicTacToe>::new(false).max_depth, None);
    let player = PerfectPlayer::<Connect4>::default();
    assert!(player.print_time);
    assert_eq!(player.max_depth, Some(11));
    let mut board = TicTacToe::empty();
    board.set(0, Some(Player::X));
    board.set(1, Some(Player::X));
    let mut player = PerfectPlayer::<TicTacToe>::new(false);
    player.next_move(&mut board, Player::X);
    assert_eq!(player.best_move(), 2);
    assert_eq!(board.result(), State::Winner(Player::X));
}

#[test]
fn lost_position_falls_back_to_first_move() {
    // O cannot stop both of X's lines: every move loses, and the first legal
    // move is played.
    let mut board = TicTacToe::empty();
    board.set(0, Some(Player::X));
    board.set(1, Some(Player::X));
    board.set(3, Some(Player::X));
    board.set(4, Some(Player::O));
    board.set(8, Some(Player::O));
    let mut player = PerfectPlayer::<TicTacToe>::new(false);
    let score: Score<IgnorePlayer> =
        player.minmax(&mut board, Player::O, Score::new(LOST), Score::new(WON), 0);
    assert_eq!(score.0, LOST);
    assert_eq!(player.best_move, None);
    player.next_move(&mut board, Player::O);
    assert_eq!(board.get(2), Some(Player::O));
}

#[test]
fn greedy_plays_first_move() {
    let mut board = Connect4::new();
    GreedyPlayer.next_move(&mut board, Player::O);
    assert_eq!(board.get(24), Some(Player::O));
    let mut ttt = TicTacToe::empty();
    ttt.set(0, Some(Player::X));
    GreedyPlayer.next_move(&mut ttt, Player::O);
    assert_eq!(ttt.get(1), Some(Player::O));
}

#[test]
fn random_plays_only_move() {
    let mut ttt = TicTacToe::empty();
    for i in 0..8 {
        ttt.set(i, Some(if i % 2 == 0 { Player::X } else { Player::O }));
    }
    RandomPlayer.next_move(&mut ttt, Player::O);
    assert_eq!(ttt.get(8), Some(Player::O));
    let mut ttt = TicTacToe::empty();
    RandomPlayer.next_move(&mut ttt, Player::X);
    assert_eq!(ttt.possible_moves().len(), 8);
}
