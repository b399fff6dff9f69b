use gambit::game::PlayerInfo;
use gambit::matchmaking::Category;
use gambit::messages::{WatchGameSummary, WatchServerMessage};
use gambit::watch::{rated_label, watch_header, watch_reconnect, WatchBoard, WATCH_FIRST_BACKOFF_MS};

const START: &str = "rnbqkbnr/pppppppp/8/8/8/8/PPPPPPPP/RNBQKBNR w KQkq - 0 1";
const AFTER_E4: &str = "rnbqkbnr/pppppppp/8/8/4P3/8/PPPP1PPP/RNBQKBNR b KQkq - 0 1";
const AFTER_E4_E5: &str = "rnbqkbnr/pppp1ppp/8/4p3/4P3/8/PPPP1PPP/RNBQKBNR w KQkq - 0 2";

fn player(name: &str) -> PlayerInfo {
    PlayerInfo { id: uuid::Uuid::new_v4(), username: Some(name.to_string()), avatar_url: None, rating: 1500 }
}

fn summary(id: uuid::Uuid, fen: &str) -> WatchGameSummary {
    WatchGameSummary {
        game_id: id,
        white: player("white"),
        black: player("black"),
        category: Category::Blitz,
        rated: true,
        fen: fen.to_string(),
    }
}

#[test]
fn roster_sets_games_and_positions() {
    let a = uuid::Uuid::new_v4();
    let b = uuid::Uuid::new_v4();
    let mut board = WatchBoard::new();
    board.apply(WatchServerMessage::Roster { games: vec![summary(a, AFTER_E4), summary(b, "not a fen")], total_active: 7 });
    assert_eq!(board.games().len(), 2);
    assert_eq!(board.total_active(), 7);
    assert_eq!(board.position_of(&a).fen(), AFTER_E4);
    assert_eq!(board.position_of(&b).fen(), START);
}

#[test]
fn roster_keeps_known_positions_and_drops_unlisted_games() {
    let a = uuid::Uuid::new_v4();
    let b = uuid::Uuid::new_v4();
    let mut board = WatchBoard::new();
    board.apply(WatchServerMessage::Roster { games: vec![summary(a, START), summary(b, START)], total_active: 2 });
    board.apply(WatchServerMessage::Position { game_id: a, fen: AFTER_E4_E5.to_string() });
    assert_eq!(board.position_of(&a).fen(), AFTER_E4_E5);
    board.apply(WatchServerMessage::Position { game_id: b, fen: AFTER_E4.to_string() });
    board.apply(WatchServerMessage::Roster { games: vec![summary(a, START)], total_active: 1 });
    assert_eq!(board.position_of(&a).fen(), AFTER_E4_E5);
    assert_eq!(board.position_of(&b).fen(), START);
    board.apply(WatchServerMessage::Roster { games: vec![summary(a, START), summary(b, AFTER_E4)], total_active: 2 });
    assert_eq!(board.position_of(&b).fen(), AFTER_E4);
}

#[test]
fn bad_position_update_is_ignored() {
    let a = uuid::Uuid::new_v4();
    let mut board = WatchBoard::new();
    board.apply(WatchServerMessage::Roster { games: vec![summary(a, AFTER_E4)], total_active: 1 });
    board.apply(WatchServerMessage::Position { game_id: a, fen: "garbage".to_string() });
    assert_eq!(board.position_of(&a).fen(), AFTER_E4);
}

#[test]
fn unknown_game_shows_the_start() {
    let board = WatchBoard::new();
    assert_eq!(board.position_of(&uuid::Uuid::new_v4()).fen(), START);
}

#[test]
fn header_only_when_more_games_than_shown() {
    assert_eq!(watch_header(12, 30, 12).as_deref(), Some("Showing 12 of 30 active games"));
    assert_eq!(watch_header(5, 5, 12), None);
    assert_eq!(watch_header(12, 12, 12), None);
    assert_eq!(rated_label(true), "Rated");
    assert_eq!(rated_label(false), "Casual");
}

#[test]
fn watch_reconnect_doubles_to_five_seconds_and_resets_on_connect() {
    let mut backoff = WATCH_FIRST_BACKOFF_MS;
    let mut waits = Vec::new();
    for _ in 0..6 {
        let (wait, next) = watch_reconnect(backoff, false);
        waits.push(wait);
        backoff = next;
    }
    assert_eq!(waits, vec![500, 1_000, 2_000, 4_000, 5_000, 5_000]);
    assert_eq!(watch_reconnect(backoff, true), (500, 1_000));
}
