use gambit::analysis::Nav;
use gambit::history::{can_step_back, can_step_forward, history_rows, selected_ply, step_ply};
use gambit::hub::{
    join_message, matched_game, quick_match_groups, rating_switch, requested_rating_mode, restored_rating_mode,
    waited_label,
};
use gambit::matchmaking::{Category, RatingMode, TimeControl, TimeMode};
use gambit::messages::{MatchmakingClientMessage, MatchmakingServerMessage};
use gambit::player::Side;

#[test]
fn quick_match_table_lists_the_hub_buttons() {
    let groups = quick_match_groups();
    let labels: Vec<&str> = groups.iter().map(|g| g.label.as_str()).collect();
    assert_eq!(labels, vec!["Bullet", "Blitz", "Rapid"]);
    let buttons: Vec<Vec<&str>> =
        groups.iter().map(|g| g.controls.iter().map(|c| c.label.as_str()).collect()).collect();
    assert_eq!(
        buttons,
        vec![vec!["1 + 0", "1 + 1", "2 + 1"], vec!["3 + 0", "3 + 2", "5 + 0", "5 + 5"], vec!["10 + 0", "15 + 10"]]
    );
    let last = &groups[2].controls[1].time_control;
    assert_eq!(last, &TimeControl { initial_time: 900_000, mode: TimeMode::Increment(10_000) });
}

#[test]
fn two_plus_one_sits_under_bullet_but_is_blitz() {
    let groups = quick_match_groups();
    assert_eq!(groups[0].controls[2].time_control.category(), Category::Blitz);
    assert_eq!(groups[0].controls[0].time_control.category(), Category::Bullet);
}

#[test]
fn guests_are_always_casual() {
    assert_eq!(restored_rating_mode(true, Some("rated"), RatingMode::Rated), RatingMode::Casual);
    assert_eq!(restored_rating_mode(true, None, RatingMode::Rated), RatingMode::Casual);
    assert!(requested_rating_mode(true, RatingMode::Rated).is_none());
}

#[test]
fn remembered_casual_choice_is_restored() {
    assert_eq!(restored_rating_mode(false, Some("casual"), RatingMode::Rated), RatingMode::Casual);
    assert_eq!(restored_rating_mode(false, Some("rated"), RatingMode::Rated), RatingMode::Rated);
    assert_eq!(restored_rating_mode(false, Some("Casual"), RatingMode::Rated), RatingMode::Rated);
    assert_eq!(restored_rating_mode(false, None, RatingMode::Rated), RatingMode::Rated);
}

#[test]
fn a_choice_is_remembered_by_its_name() {
    let (mode, text) = requested_rating_mode(false, RatingMode::Casual).unwrap();
    assert_eq!(mode, RatingMode::Casual);
    assert_eq!(text, "casual");
    assert_eq!(restored_rating_mode(false, Some(&text), RatingMode::Rated), RatingMode::Casual);
    let (mode, text) = requested_rating_mode(false, RatingMode::Rated).unwrap();
    assert_eq!(mode, RatingMode::Rated);
    assert_eq!(restored_rating_mode(false, Some(&text), RatingMode::Rated), RatingMode::Rated);
}

#[test]
fn rating_switch_for_a_guest() {
    let s = rating_switch(true, RatingMode::Rated);
    assert!(!s.rated_active);
    assert!(s.rated_disabled);
    assert!(!s.casual_active);
    assert!(s.sign_in_hint);
    let s = rating_switch(false, RatingMode::Casual);
    assert!(!s.rated_active && !s.rated_disabled && s.casual_active && !s.sign_in_hint);
}

#[test]
fn search_dialog_joins_and_follows_the_match() {
    let tc = TimeControl { initial_time: 180_000, mode: TimeMode::Increment(2_000) };
    match join_message(&tc, RatingMode::Rated) {
        MatchmakingClientMessage::Join { time_control, rating_mode } => {
            assert_eq!(time_control, tc);
            assert_eq!(rating_mode, RatingMode::Rated);
        }
    }
    let id = uuid::Uuid::new_v4();
    assert_eq!(matched_game(&MatchmakingServerMessage::Matched { game: id, side: Side::White }), Some(id));
    assert_eq!(matched_game(&MatchmakingServerMessage::Queued { time_control: tc }), None);
    assert_eq!(waited_label(0), "0s");
    assert_eq!(waited_label(73), "73s");
}

#[test]
fn move_list_steps_between_plies() {
    assert_eq!(selected_ply(None, 5), 5);
    assert_eq!(selected_ply(Some(2), 5), 2);
    assert_eq!(step_ply(None, 5, Nav::Back), Some(4));
    assert_eq!(step_ply(Some(4), 5, Nav::Forward), None);
    assert_eq!(step_ply(Some(2), 5, Nav::Forward), Some(3));
    assert_eq!(step_ply(Some(0), 5, Nav::Back), Some(0));
    assert_eq!(step_ply(Some(3), 5, Nav::Beginning), Some(0));
    assert_eq!(step_ply(Some(3), 5, Nav::End), None);
    assert!(!can_step_back(None, 0));
    assert!(can_step_back(None, 1));
    assert!(!can_step_back(Some(0), 4));
    assert!(can_step_forward(Some(0)));
    assert!(!can_step_forward(None));
}

#[test]
fn forward_and_back_undo_each_other() {
    for total in 1usize..6 {
        let mut views: Vec<Option<usize>> = (1..total).map(Some).collect();
        views.push(None);
        for v in views {
            let back = step_ply(v, total, Nav::Back);
            assert_eq!(step_ply(back, total, Nav::Forward), v);
        }
        for i in 0..total.saturating_sub(1) {
            let fwd = step_ply(Some(i), total, Nav::Forward);
            assert_eq!(step_ply(fwd, total, Nav::Back), Some(i));
        }
    }
}

#[test]
fn history_rows_pair_moves() {
    let sans: Vec<String> = ["e4", "e5", "Nf3"].iter().map(|s| s.to_string()).collect();
    let rows = history_rows(&sans);
    assert_eq!(rows.len(), 2);
    assert_eq!(rows[0].number, 1);
    assert_eq!(rows[0].white, "e4");
    assert_eq!(rows[0].black.as_deref(), Some("e5"));
    assert_eq!((rows[0].white_ply, rows[0].black_ply), (1, 2));
    assert_eq!(rows[1].number, 2);
    assert_eq!(rows[1].white, "Nf3");
    assert_eq!(rows[1].black, None);
    assert_eq!((rows[1].white_ply, rows[1].black_ply), (3, 4));
    assert!(history_rows(&[]).is_empty());
}
