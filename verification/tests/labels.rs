use gambit::labels::{
    new_game_label, rating_diff_class, rating_diff_text,
    format_clock, format_time_control, rating_text, relation_label, result_badge, time_control_label,
    RecentGameResult,
};
use gambit::matchmaking::{TimeControl, TimeMode};
use gambit::social::{FriendRelation, FriendSummary};

#[test]
fn clock_shows_tenths_in_the_last_twenty_seconds() {
    assert_eq!(format_clock(20_000), "20.0");
    assert_eq!(format_clock(9_450), "09.4");
    assert_eq!(format_clock(0), "00.0");
}

#[test]
fn clock_shows_minutes_and_seconds() {
    assert_eq!(format_clock(20_001), "0:20");
    assert_eq!(format_clock(65_000), "1:05");
    assert_eq!(format_clock(599_999), "9:59");
    assert_eq!(format_clock(600_000), "10:00");
    assert_eq!(format_clock(3_725_000), "62:05");
}

#[test]
fn clock_below_zero_keeps_its_sign() {
    assert_eq!(format_clock(-1_500), "-1.-5");
}

#[test]
fn time_control_formats() {
    let tc = |initial_time, mode| TimeControl { initial_time, mode };
    assert_eq!(format_time_control(&tc(300_000, TimeMode::Increment(3_000))), "5+3");
    assert_eq!(format_time_control(&tc(90_000, TimeMode::Increment(0))), "1m30s+0");
    assert_eq!(format_time_control(&tc(30_000, TimeMode::Delay(2_000))), "30s+2");
    assert_eq!(time_control_label(&tc(180_000, TimeMode::Increment(2_000))), "3+2");
    assert_eq!(time_control_label(&tc(600_000, TimeMode::Delay(5_000))), "10+0");
}

#[test]
fn relation_and_result_labels() {
    assert_eq!(relation_label(FriendRelation::Unrelated), "Add");
    assert_eq!(relation_label(FriendRelation::PendingOutgoing), "Pending");
    assert_eq!(relation_label(FriendRelation::PendingIncoming), "Respond below");
    assert_eq!(relation_label(FriendRelation::Friends), "Friends");
    assert_eq!(result_badge(RecentGameResult::Won), ("\u{2713} Won", "text-emerald-400/80"));
    assert_eq!(result_badge(RecentGameResult::Aborted), ("\u{2014} Aborted", "text-zinc-500"));
}

#[test]
fn names_and_ratings() {
    assert_eq!(rating_text(Some(1500)), "1500");
    assert_eq!(rating_text(None), "\u{2014}");
    let anon = FriendSummary { id: uuid::Uuid::nil(), username: None, avatar_url: None };
    assert_eq!(anon.display_name(), "Anonymous");
    assert_eq!(anon.profile_href(), None);
    let alice = FriendSummary { id: uuid::Uuid::nil(), username: Some("alice".to_string()), avatar_url: None };
    assert_eq!(alice.display_name(), "alice");
    assert_eq!(alice.profile_href(), Some("/u/alice".to_string()));
}

#[test]
fn rating_card_change() {
    assert_eq!(rating_diff_text(Some(12)), "+12");
    assert_eq!(rating_diff_text(Some(-7)), "-7");
    assert_eq!(rating_diff_text(Some(0)), "\u{2014}");
    assert_eq!(rating_diff_text(None), "\u{2014}");
    assert_eq!(rating_diff_class(Some(3)), "text-[11px] font-semibold text-emerald-400/80");
    assert_eq!(rating_diff_class(Some(-3)), "text-[11px] font-semibold text-red-400/80");
    assert_eq!(rating_diff_class(None), "text-[11px] font-semibold text-zinc-600");
}

#[test]
fn new_game_button_label() {
    assert_eq!(new_game_label(""), "New Game");
    assert_eq!(new_game_label("5+0"), "New 5+0");
}
