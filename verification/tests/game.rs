use gambit::game::{Game, PlayError};
use gambit::matchmaking::{GameConfig, RatingMode, TimeControl, TimeMode, Variant};
use gambit::player::Side;
use gambit::position::{Outcome, Position};

fn make_game() -> Game {
    let config = GameConfig {
        time_control: TimeControl { initial_time: 600_000, mode: TimeMode::Increment(0) },
        variant: Variant::Standard,
        rated: RatingMode::Casual,
    };
    Game::new(config, uuid::Uuid::new_v4(), uuid::Uuid::new_v4())
}

#[test]
fn new_game_clocks_equal_initial_time() {
    let game = make_game();
    assert_eq!(game.white_ms_left, 600_000);
    assert_eq!(game.black_ms_left, 600_000);
}

#[test]
fn new_game_starts_with_white_to_move() {
    let game = make_game();
    assert_eq!(game.get_turn(), Side::White);
}

#[test]
fn legal_move_advances_turn() {
    let mut game = make_game();
    game.play_uci("e2e4").unwrap();
    assert_eq!(game.get_turn(), Side::Black, "after White moves, Black to move");
}

#[test]
fn legal_move_ongoing_returns_none_outcome() {
    let mut game = make_game();
    let outcome = game.play_uci("e2e4").unwrap();
    assert_eq!(outcome, Outcome::Unknown, "game is still ongoing");
}

#[test]
fn illegal_move_returns_err_and_position_unchanged() {
    let mut game = make_game();
    let pos_before = game.position.clone();
    if let Some(mv) = game.position.uci_move("e2e5") {
        let result = game.make_move(&mv);
        assert!(result.is_err(), "illegal move must return Err");
    }
    assert_eq!(game.position.fen(), pos_before.fen(), "position must not change on illegal move");
    assert_eq!(game.get_turn(), Side::White, "turn must not advance");
}

#[test]
fn checkmate_returns_decisive_outcome() {
    let mut game = make_game();
    game.play_uci("f2f3").unwrap();
    game.play_uci("e7e5").unwrap();
    game.play_uci("g2g4").unwrap();
    let outcome = game.play_uci("d8h4").unwrap();
    assert_eq!(outcome, Outcome::Decisive(Side::Black));
}

#[test]
fn play_errors_say_why() {
    let mut game = make_game();
    assert_eq!(game.play_uci("e2e9"), Err(PlayError::BadUci));
    assert_eq!(game.play_uci("e2e5"), Err(PlayError::Illegal));
    assert_eq!(game.get_turn(), Side::White);
}

#[test]
fn make_move_plays_a_move_made_elsewhere_when_legal_here() {
    let mut game = make_game();
    let mv = game.position.uci_move("e2e4").unwrap();
    assert_eq!(game.make_move(&mv), Ok(Outcome::Unknown));
    assert_eq!(game.position.fen(), "rnbqkbnr/pppppppp/8/8/4P3/8/PPPP1PPP/RNBQKBNR b KQkq - 0 1");
    assert_eq!(game.make_move(&mv), Err(PlayError::Illegal));
}

#[test]
fn make_move_refuses_a_capture_that_is_not_there() {
    let mut game = make_game();
    let elsewhere =
        Position::from_fen("rnbqkbnr/ppppp1pp/8/8/8/5p2/PPPPPPPP/RNBQKBNR w KQkq - 0 1").unwrap();
    let capture = elsewhere.uci_move("g1f3").unwrap();
    assert_eq!(capture.san_str(), "Nxf3");
    assert_eq!(game.make_move(&capture), Err(PlayError::Illegal));
    assert_eq!(game.position.fen(), "rnbqkbnr/pppppppp/8/8/8/8/PPPPPPPP/RNBQKBNR w KQkq - 0 1");
    assert_eq!(game.get_turn(), Side::White);
}

#[test]
fn make_move_accepts_the_same_move_from_another_position() {
    let mut game = make_game();
    let elsewhere =
        Position::from_fen("rnbqkbnr/1ppppppp/p7/8/8/8/PPPPPPPP/RNBQKBNR w KQkq - 0 1").unwrap();
    let knight = elsewhere.uci_move("g1f3").unwrap();
    assert_eq!(game.make_move(&knight), Ok(Outcome::Unknown));
    assert_eq!(game.position.fen(), "rnbqkbnr/pppppppp/8/8/8/5N2/PPPPPPPP/RNBQKB1R b KQkq - 1 1");
}
