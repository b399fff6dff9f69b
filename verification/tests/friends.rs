use gambit::friends::{
    challenge_controls, empty_friends_label, friend_action, friend_game, friend_online, profile_actions,
    timeout_clears, FriendAction, ProfileAction,
};
use gambit::search::{result_button, search_wanted, SearchBox};
use gambit::social::{FriendActiveGame, FriendRelation, FriendSummary, ProfileView};
use gambit::matchmaking::{TimeControl, TimeMode};

fn friend(name: Option<&str>) -> FriendSummary {
    FriendSummary { id: uuid::Uuid::new_v4(), username: name.map(|s| s.to_string()), avatar_url: None }
}

fn profile(relation: FriendRelation, online: bool, game: Option<uuid::Uuid>, is_own: bool) -> ProfileView {
    ProfileView {
        user: friend(Some("alice")),
        bio: None,
        country: None,
        is_own,
        relation,
        online,
        in_game: game.map(|g| FriendActiveGame { game_id: g, opponent_username: None }),
        friends: vec![],
        incoming_requests: vec![],
        outgoing_requests: vec![],
    }
}

#[test]
fn pushes_override_the_loaded_list() {
    assert!(friend_online(Some(true), false));
    assert!(!friend_online(Some(false), true));
    assert!(friend_online(None, true));
    let g = uuid::Uuid::new_v4();
    let h = uuid::Uuid::new_v4();
    let listed = Some(FriendActiveGame { game_id: g, opponent_username: None });
    assert_eq!(friend_game(None, &listed), Some(g));
    assert_eq!(friend_game(Some(None), &listed), None);
    assert_eq!(friend_game(Some(Some(h)), &None), Some(h));
}

#[test]
fn friend_row_offers_watch_or_challenge() {
    let g = uuid::Uuid::new_v4();
    assert!(matches!(friend_action(Some(g), false), FriendAction::Watch(x) if x == g));
    assert!(matches!(friend_action(None, true), FriendAction::Challenge { enabled: true }));
    assert!(matches!(friend_action(None, false), FriendAction::Challenge { enabled: false }));
    assert_eq!(empty_friends_label(true), "No friends yet — search above to add some");
    assert_eq!(empty_friends_label(false), "No friends yet");
}

#[test]
fn profile_buttons_follow_the_relation() {
    assert!(profile_actions(&profile(FriendRelation::Unrelated, true, None, true)).is_empty());
    let a = profile_actions(&profile(FriendRelation::Unrelated, true, None, false));
    assert!(matches!(a.as_slice(), [ProfileAction::SendRequest]));
    let a = profile_actions(&profile(FriendRelation::PendingOutgoing, true, None, false));
    assert!(matches!(a.as_slice(), [ProfileAction::CancelRequest]));
    let a = profile_actions(&profile(FriendRelation::PendingIncoming, true, None, false));
    assert!(matches!(a.as_slice(), [ProfileAction::Accept, ProfileAction::Decline]));
    let a = profile_actions(&profile(FriendRelation::Friends, false, None, false));
    assert!(matches!(a.as_slice(), [ProfileAction::Challenge { enabled: false }, ProfileAction::Unfriend]));
    let g = uuid::Uuid::new_v4();
    let a = profile_actions(&profile(FriendRelation::Friends, true, Some(g), false));
    assert!(matches!(a.as_slice(), [ProfileAction::Watch(x), ProfileAction::Unfriend] if *x == g));
}

#[test]
fn challenge_controls_are_labelled_by_time_control() {
    let cs = challenge_controls();
    let labels: Vec<&str> = cs.iter().map(|c| c.label.as_str()).collect();
    assert_eq!(labels, vec!["1+0", "3+0", "5+0", "10+0"]);
    assert_eq!(cs[3].time_control, TimeControl { initial_time: 600_000, mode: TimeMode::Increment(0) });
}

#[test]
fn toast_timeout_clears_only_its_own_challenge() {
    let a = uuid::Uuid::new_v4();
    let b = uuid::Uuid::new_v4();
    assert!(timeout_clears(&Some(a), &a));
    assert!(!timeout_clears(&Some(b), &a));
    assert!(!timeout_clears(&None, &a));
}

#[test]
fn short_queries_are_not_searched() {
    assert!(!search_wanted(""));
    assert!(!search_wanted("  a  "));
    assert!(search_wanted(" ab "));
    assert!(search_wanted("é"));
    assert!(!search_wanted("\u{3000}x\u{3000}"));
}

#[test]
fn only_the_last_keystroke_of_a_burst_is_searched() {
    let mut b = SearchBox::new();
    let t1 = b.input("al".to_string());
    let t2 = b.input("ali".to_string());
    assert_eq!(b.query(), "ali");
    b.settle(t1, "al".to_string());
    assert_eq!(b.searched(), "");
    b.settle(t2, "ali".to_string());
    assert_eq!(b.searched(), "ali");
    b.settle(t1, "al".to_string());
    assert_eq!(b.searched(), "ali");
}

#[test]
fn search_result_buttons() {
    assert_eq!(result_button(FriendRelation::Unrelated, false), (true, "Add"));
    assert_eq!(result_button(FriendRelation::Unrelated, true), (false, "Pending"));
    assert_eq!(result_button(FriendRelation::Friends, false), (false, "Friends"));
    assert_eq!(result_button(FriendRelation::PendingIncoming, false), (false, "Respond below"));
}
