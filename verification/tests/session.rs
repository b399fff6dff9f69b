use gambit::messages::{GameClientMessage, GameOverReason};
use gambit::player::{PlayerRole, Side};
use gambit::position::Outcome;
use gambit::session::{
    after_decline_shown, connection_dot, connection_title, press_draw_button, press_rematch_button, result_subtitle,
    result_text, DrawButton, RematchButton,
    can_drag_piece, clock_sides, clock_style, display_position, displayed_clock, heartbeat_expired, next_backoff,
    low_time_step, resign_click, LowTimeAction, RESIGN_CONFIRM_MS, side_abort_deadline, DrawOfferState, PlayView, RematchState, SessionEvent, Sound,
};
use gambit::board::BoardPerspective;
use gambit::position::Position;

fn joined(me: uuid::Uuid, side: Side) -> PlayView {
    let mut v = PlayView::new();
    let e = v.apply(
        SessionEvent::UserJoined {
            uuid: me,
            position_fen: "rnbqkbnr/pppppppp/8/8/8/8/PPPPPPPP/RNBQKBNR w KQkq - 0 1".to_string(),
            player_role: PlayerRole::Player(side),
            moves: vec![],
        },
        &me,
        1_000,
    );
    assert!(matches!(e.sounds.as_slice(), [Sound::GameStart]));
    v
}

fn move_made(uci: &str, w: i64, b: i64, at: i64) -> SessionEvent {
    SessionEvent::MoveMade { uci: uci.to_string(), white_ms_left: w, black_ms_left: b, turn: Side::White, sent_at_ms: at }
}

#[test]
fn joining_takes_the_role_once() {
    let me = uuid::Uuid::new_v4();
    let mut v = joined(me, Side::White);
    assert_eq!(v.role, Some(PlayerRole::Player(Side::White)));
    let e = v.apply(
        SessionEvent::UserJoined {
            uuid: me,
            position_fen: "bad fen".to_string(),
            player_role: PlayerRole::Spectator,
            moves: vec!["e2e4".to_string()],
        },
        &me,
        2_000,
    );
    assert!(e.sounds.is_empty());
    assert_eq!(v.role, Some(PlayerRole::Player(Side::White)));
    assert!(v.history.is_empty());
}

#[test]
fn own_move_is_sent_then_its_echo_ignored() {
    let me = uuid::Uuid::new_v4();
    let mut v = joined(me, Side::White);
    let e = v.local_move("e2e4", 5_000);
    assert_eq!(e.send_move, Some(("e2e4".to_string(), 5_000)));
    assert_eq!(v.last_sent_uci, Some("e2e4".to_string()));
    let fen = v.position.fen();
    let e = v.apply(move_made("e2e4", 300_000, 300_000, 5_100), &me, 5_200);
    assert!(e.sounds.is_empty() && !e.reconnect);
    assert_eq!(v.position.fen(), fen);
    assert_eq!(v.last_sent_uci, None);
    assert_eq!(v.history, vec!["e2e4".to_string()]);
    assert!(v.clock_running);
}

#[test]
fn moving_out_of_turn_does_nothing() {
    let me = uuid::Uuid::new_v4();
    let mut v = joined(me, Side::Black);
    let e = v.local_move("e2e4", 5_000);
    assert!(e.send_move.is_none() && e.sounds.is_empty());
    assert_eq!(v.last_sent_uci, None);
}

#[test]
fn opponent_move_is_applied_and_unplayable_one_reconnects() {
    let me = uuid::Uuid::new_v4();
    let mut v = joined(me, Side::Black);
    let e = v.apply(move_made("e2e4", 299_000, 300_000, 10_000), &me, 10_050);
    assert!(matches!(e.sounds.as_slice(), [Sound::MovePlayed { uci, .. }] if uci == "e2e4"));
    assert_eq!(v.last_move, Some((12, 28)));
    assert_eq!(v.white_ms, 299_000);
    let e = v.apply(move_made("e2e4", 299_000, 300_000, 10_000), &me, 10_100);
    assert!(e.reconnect);
}

#[test]
fn a_queued_premove_is_played_on_our_turn() {
    let me = uuid::Uuid::new_v4();
    let mut v = joined(me, Side::Black);
    let e = v.queue_premove(52, 36);
    assert!(matches!(e.sounds.as_slice(), [Sound::Move]));
    let e = v.apply(move_made("e2e4", 299_000, 300_000, 10_000), &me, 10_050);
    assert_eq!(e.sounds.len(), 2);
    assert_eq!(e.send_move, Some(("e7e5".to_string(), 10_050)));
    assert!(v.premoves.is_empty());
    assert_eq!(v.black_ms, 300_000 - 50);
}

#[test]
fn an_unplayable_premove_clears_the_queue() {
    let me = uuid::Uuid::new_v4();
    let mut v = joined(me, Side::Black);
    v.queue_premove(52, 20);
    v.queue_premove(51, 35);
    let e = v.apply(move_made("e2e4", 299_000, 300_000, 10_000), &me, 10_050);
    assert!(e.send_move.is_none());
    assert!(v.premoves.is_empty());
}

#[test]
fn game_over_sets_the_result_and_the_sound() {
    let me = uuid::Uuid::new_v4();
    let mut v = joined(me, Side::White);
    let e = v.apply(SessionEvent::GameOver { winner: Some(Side::White), reason: GameOverReason::Resignation }, &me, 1);
    assert!(matches!(e.sounds.as_slice(), [Sound::Victory]));
    assert_eq!(v.result, Some(Outcome::Decisive(Side::White)));
    assert!(!v.clock_running);
    let mut w = joined(me, Side::White);
    let e = w.apply(SessionEvent::GameOver { winner: None, reason: GameOverReason::Stalemate }, &me, 1);
    assert!(matches!(e.sounds.as_slice(), [Sound::Draw]));
    assert_eq!(w.result, Some(Outcome::Draw));
    let mut x = joined(me, Side::Black);
    let e = x.apply(SessionEvent::GameOver { winner: None, reason: GameOverReason::Timeout }, &me, 1);
    assert!(matches!(e.sounds.as_slice(), [Sound::Draw]));
    assert_eq!(x.result, Some(Outcome::Decisive(Side::Black)));
}

#[test]
fn offers_from_the_opponent_only() {
    let me = uuid::Uuid::new_v4();
    let other = uuid::Uuid::new_v4();
    let mut v = joined(me, Side::White);
    v.apply(SessionEvent::DrawOffer { from: me }, &me, 1);
    assert_eq!(v.draw_offer, DrawOfferState::Idle);
    v.apply(SessionEvent::DrawOffer { from: other }, &me, 1);
    assert_eq!(v.draw_offer, DrawOfferState::OfferedToUs);
    v.apply(SessionEvent::RematchOffer { from: other }, &me, 1);
    assert_eq!(v.rematch, RematchState::OfferedToUs);
    v.apply(SessionEvent::RematchDecline, &me, 1);
    assert_eq!(v.rematch, RematchState::Declined);
    let g = uuid::Uuid::new_v4();
    let e = v.apply(SessionEvent::RematchAccept { new_game_id: g }, &me, 1);
    assert_eq!(e.open_game, Some(g));
}

#[test]
fn pongs_keep_sixteen_samples_and_the_fastest_offset() {
    let me = uuid::Uuid::new_v4();
    let mut v = joined(me, Side::White);
    v.apply(SessionEvent::Pong { client_time_ms: 1_000, server_time_ms: 1_500 }, &me, 1_100);
    assert_eq!(v.offset_samples, vec![(100, 450)]);
    assert_eq!(v.clock_offset_ms, 450);
    v.apply(SessionEvent::Pong { client_time_ms: 2_000, server_time_ms: 2_400 }, &me, 2_040);
    assert_eq!(v.clock_offset_ms, 380);
    for i in 0..20 {
        v.apply(SessionEvent::Pong { client_time_ms: 3_000 + i, server_time_ms: 3_000 + i }, &me, 3_200 + i);
    }
    assert_eq!(v.offset_samples.len(), 16);
    assert_eq!(v.clock_offset_ms, -100);
}

#[test]
fn clock_widgets() {
    assert_eq!(displayed_clock(60_000, 1_000, true, 2_500, 500), 58_000);
    assert_eq!(displayed_clock(1_000, 0, true, 5_000, 0), 0);
    assert_eq!(displayed_clock(60_000, 1_000, false, 9_999, 0), 60_000);
    assert_eq!(clock_style(15_000, true), "bg-red-500 text-white font-bold");
    assert_eq!(clock_style(0, true), "text-zinc-300");
    assert_eq!(clock_style(30_000, true), "bg-zinc-100 text-black");
    assert_eq!(clock_sides(BoardPerspective::White, 10, 20, true, true), (20, false, 10, true));
    assert_eq!(clock_sides(BoardPerspective::Black, 10, 20, false, true), (10, false, 20, false));
    assert_eq!(side_abort_deadline(Some(Side::White), Some(99), Side::White), Some(99));
    assert_eq!(side_abort_deadline(Some(Side::White), Some(99), Side::Black), None);
}

#[test]
fn small_decisions() {
    assert!(can_drag_piece(None, Some(PlayerRole::Player(Side::White)), Side::White));
    assert!(!can_drag_piece(Some(3), Some(PlayerRole::Player(Side::White)), Side::White));
    assert!(!can_drag_piece(None, Some(PlayerRole::Spectator), Side::White));
    assert_eq!(resign_click(false), (false, true));
    assert_eq!(resign_click(true), (true, false));
    assert_eq!(next_backoff(500), 1_000);
    assert_eq!(next_backoff(20_000), 30_000);
    assert!(heartbeat_expired(10_000, 3_999));
    assert!(!heartbeat_expired(10_000, 4_000));
}

#[test]
fn history_can_be_viewed_at_any_ply() {
    let history = vec!["e2e4".to_string(), "bad".to_string(), "e7e5".to_string()];
    let live = Position::start();
    assert_eq!(display_position(&live, &history, None).fen(), live.fen());
    assert_eq!(
        display_position(&live, &history, Some(1)).fen(),
        "rnbqkbnr/pppppppp/8/8/4P3/8/PPPP1PPP/RNBQKBNR b KQkq - 0 1"
    );
    assert_eq!(
        display_position(&live, &history, Some(9)).fen(),
        "rnbqkbnr/pppp1ppp/8/4p3/4P3/8/PPPP1PPP/RNBQKBNR w KQkq - 0 2"
    );
}

#[test]
fn offer_buttons_and_end_of_game_texts() {
    assert!(matches!(press_draw_button(DrawButton::Offer), (GameClientMessage::DrawOffer, DrawOfferState::Offering)));
    assert!(matches!(press_draw_button(DrawButton::Decline), (GameClientMessage::DrawDecline, DrawOfferState::Idle)));
    assert!(matches!(
        press_rematch_button(RematchState::Idle, RematchButton::Offer),
        (GameClientMessage::RematchOffer, RematchState::Offering)
    ));
    assert!(matches!(
        press_rematch_button(RematchState::OfferedToUs, RematchButton::Accept),
        (GameClientMessage::RematchAccept, RematchState::OfferedToUs)
    ));
    assert_eq!(after_decline_shown(RematchState::Declined), RematchState::Idle);
    assert_eq!(after_decline_shown(RematchState::Offering), RematchState::Offering);
    assert_eq!(result_text(Outcome::Decisive(Side::White), Some(GameOverReason::Abort)), "Game aborted");
    assert_eq!(result_text(Outcome::Decisive(Side::Black), Some(GameOverReason::Checkmate)), "Black wins");
    assert_eq!(result_text(Outcome::Draw, None), "Draw");
    assert_eq!(result_subtitle(Some(GameOverReason::Abort)), "No rating change");
    assert_eq!(result_subtitle(None), "Game over");
    assert_eq!(connection_dot(false, Some(5)), "w-2.5 h-2.5 rounded-full bg-red-500 ring-2 ring-red-300 flex-shrink-0");
    assert_eq!(connection_dot(true, Some(120)), "w-2.5 h-2.5 rounded-full bg-yellow-500 flex-shrink-0");
    assert_eq!(connection_title(true, Some(42)), "ping 42 ms");
    assert_eq!(connection_title(true, None), "connecting\u{2026}");
    assert_eq!(connection_title(false, None), "disconnected");
}

#[test]
fn low_time_warning_sounds_once_below_twenty_seconds() {
    // 25 s left as of t=1000, clock running, now t=2000: due in 4 s.
    assert_eq!(low_time_step(false, 25_000, 1_000, true, 2_000), (false, LowTimeAction::PlayIn(4_000)));
    // 19 s left: sounds now.
    assert_eq!(low_time_step(false, 19_000, 1_000, true, 1_000), (true, LowTimeAction::PlayNow));
    // already sounded and still low: nothing more.
    assert_eq!(low_time_step(true, 15_000, 1_000, true, 1_500), (true, LowTimeAction::Nothing));
    // back above twenty seconds: re-armed.
    assert_eq!(low_time_step(true, 30_000, 1_000, true, 1_000), (false, LowTimeAction::PlayIn(10_000)));
    // clock not running, or flagged: nothing.
    assert_eq!(low_time_step(false, 10_000, 1_000, false, 1_000), (false, LowTimeAction::Nothing));
    assert_eq!(low_time_step(false, 0, 1_000, true, 1_000), (false, LowTimeAction::Nothing));
    // a clock reading from the future counts no time as passed.
    assert_eq!(low_time_step(false, 21_000, 5_000, true, 1_000), (false, LowTimeAction::PlayIn(1_000)));
}

#[test]
fn resign_disarms_after_three_seconds() {
    assert_eq!(RESIGN_CONFIRM_MS, 3_000);
    assert_eq!(resign_click(false), (false, true));
}
