use gambit::settings::{auto_queen_for, is_guest_user, session_button_label, AutoQueenSwitch};
use gambit::social::{UserSettings, UserSummary};

fn user(username: Option<&str>, email: &str, is_guest: bool, auto_queen: bool) -> UserSummary {
    UserSummary {
        id: uuid::Uuid::new_v4(),
        email: email.to_string(),
        username: username.map(|s| s.to_string()),
        avatar_url: None,
        bio: None,
        country: None,
        is_guest,
        settings: UserSettings { auto_queen },
    }
}

#[test]
fn menu_name_prefers_the_username() {
    assert_eq!(user(Some("magnus"), "m@x.org", false, false).menu_name(), "magnus");
    assert_eq!(user(None, "anna@example.com", false, false).menu_name(), "anna");
    assert_eq!(user(None, "no-at-sign", false, false).menu_name(), "no-at-sign");
    assert_eq!(user(None, "a@b@c", false, false).menu_name(), "a");
    assert_eq!(user(None, "@x", false, false).menu_name(), "");
}

#[test]
fn account_button_and_flags() {
    assert_eq!(session_button_label(true), "Sign in");
    assert_eq!(session_button_label(false), "Sign out");
    assert!(is_guest_user(&Some(user(None, "g@x", true, false))));
    assert!(!is_guest_user(&None));
    assert!(auto_queen_for(&Some(user(None, "g@x", false, true))));
    assert!(!auto_queen_for(&None));
}

#[test]
fn auto_queen_switch_shows_the_change_at_once() {
    let mut s = AutoQueenSwitch::new();
    assert!(!s.shown(false));
    let save = s.toggle(false);
    assert!(save);
    assert!(s.shown(false));
    s.stored_changed(false);
    assert!(s.shown(false));
    s.stored_changed(true);
    assert_eq!(s.pending, None);
    assert!(s.shown(true));
}

#[test]
fn failed_save_shows_the_stored_value() {
    let mut s = AutoQueenSwitch::new();
    s.toggle(true);
    assert!(!s.shown(true));
    s.save_failed();
    assert!(s.shown(true));
}
