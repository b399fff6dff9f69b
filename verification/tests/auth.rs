use gambit::auth::{
    begin_login, github_credentials, github_identity, google_credentials, google_verified_email, login_step,
    may_refresh_keys, KeyRefresh, primary_verified_email, redirect_after_sign_in, AuthError, Credentials, GitHubCallbackQuery,
    GitHubEmail, GitHubUser, GoogleCallbackQuery, LoginAction, LoginEvent, LoginState, Provider, SignInKind,
};

fn email(e: &str, primary: bool, verified: bool) -> GitHubEmail {
    GitHubEmail { email: e.to_string(), primary, verified }
}

#[test]
fn callback_needs_the_matching_csrf_token() {
    let q = || GitHubCallbackQuery { code: "c0de".to_string(), state: "s1".to_string() };
    assert!(matches!(github_credentials(Some("s1".to_string()), q()), Some(Credentials::GitHubOAuth { code }) if code == "c0de"));
    assert!(github_credentials(Some("s2".to_string()), q()).is_none());
    assert!(github_credentials(None, q()).is_none());
    let g = || GoogleCallbackQuery { code: "c".to_string(), state: "s".to_string() };
    assert!(matches!(
        google_credentials(Some("s".to_string()), Some("n".to_string()), g()),
        Some(Credentials::GoogleOAuth { code, nonce }) if code == "c" && nonce == "n"
    ));
    assert!(google_credentials(Some("s".to_string()), None, g()).is_none());
    assert!(google_credentials(Some("x".to_string()), Some("n".to_string()), g()).is_none());
    assert_eq!(redirect_after_sign_in(true), "/");
    assert_eq!(redirect_after_sign_in(false), "/login");
}

#[test]
fn github_identity_takes_the_listed_primary_verified_address() {
    let emails = vec![email("a@x", true, false), email("b@x", false, true), email("c@x", true, true)];
    assert_eq!(primary_verified_email(&emails), Some("c@x".to_string()));
    let user = github_identity(GitHubUser { id: 7, email: None }, &emails).unwrap();
    assert_eq!((user.id, user.email), (7, Some("c@x".to_string())));
    // The profile's own address does not count unless it is listed as
    // primary and verified.
    let user = github_identity(GitHubUser { id: 7, email: Some("p@x".to_string()) }, &emails).unwrap();
    assert_eq!(user.email, Some("c@x".to_string()));
    assert!(matches!(
        github_identity(GitHubUser { id: 7, email: Some("p@x".to_string()) }, &[]),
        Err(AuthError::NoVerifiedPrimaryEmail)
    ));
    assert!(matches!(
        github_identity(GitHubUser { id: 7, email: None }, &emails[..2]),
        Err(AuthError::NoVerifiedPrimaryEmail)
    ));
}

#[test]
fn google_email_counts_only_when_verified() {
    assert_eq!(google_verified_email(Some("g@x".to_string()), Some(true)), Some("g@x".to_string()));
    assert_eq!(google_verified_email(Some("g@x".to_string()), Some(false)), None);
    assert_eq!(google_verified_email(Some("g@x".to_string()), None), None);
    assert_eq!(google_verified_email(None, Some(true)), None);
    assert!(!may_refresh_keys(59_999));
    assert!(may_refresh_keys(60_000));
}

#[test]
fn returning_user_signs_in_at_once() {
    let u = uuid::Uuid::new_v4();
    let (state, action) = begin_login(Provider::GitHub, "42".to_string(), None);
    assert!(matches!(action, LoginAction::FindLinked { provider: Provider::GitHub, ref provider_user_id } if provider_user_id == "42"));
    let (state, action) = login_step(state, LoginEvent::Found(u));
    assert!(matches!(state, LoginState::Done { user, kind: SignInKind::Returning } if user == u));
    assert!(matches!(action, LoginAction::SignIn { user, kind: SignInKind::Returning } if user == u));
}

#[test]
fn unverified_identity_gets_a_placeholder_account() {
    let u = uuid::Uuid::new_v4();
    let (state, _) = begin_login(Provider::GitHub, "42".to_string(), None);
    let (state, action) = login_step(state, LoginEvent::NotFound);
    assert!(matches!(action, LoginAction::CreateUser { ref email } if email == "github_42"));
    let (state, action) = login_step(state, LoginEvent::Created(u));
    assert!(matches!(action, LoginAction::LinkAccount { user, provider: Provider::GitHub, ref provider_user_id } if user == u && provider_user_id == "42"));
    let (state, action) = login_step(state, LoginEvent::Linked);
    assert!(matches!(state, LoginState::Done { kind: SignInKind::Created, .. }));
    assert!(matches!(action, LoginAction::SignIn { kind: SignInKind::Created, .. }));
}

#[test]
fn verified_email_links_the_existing_account() {
    let u = uuid::Uuid::new_v4();
    let (state, _) = begin_login(Provider::Google, "sub".to_string(), Some("me@x".to_string()));
    let (state, action) = login_step(state, LoginEvent::NotFound);
    assert!(matches!(action, LoginAction::FindByEmail { ref email } if email == "me@x"));
    let (state, _) = login_step(state, LoginEvent::Found(u));
    let (_, action) = login_step(state, LoginEvent::Linked);
    assert!(matches!(action, LoginAction::SignIn { user, kind: SignInKind::Linked } if user == u));
}

#[test]
fn verified_email_without_an_account_creates_one() {
    let (state, _) = begin_login(Provider::Google, "sub".to_string(), Some("me@x".to_string()));
    let (state, _) = login_step(state, LoginEvent::NotFound);
    let (_, action) = login_step(state, LoginEvent::NotFound);
    assert!(matches!(action, LoginAction::CreateUser { ref email } if email == "me@x"));
}

#[test]
fn an_answer_out_of_turn_fails() {
    let (state, _) = begin_login(Provider::Google, "sub".to_string(), None);
    let (state, action) = login_step(state, LoginEvent::Linked);
    assert!(matches!(state, LoginState::Failed));
    assert!(matches!(action, LoginAction::Nothing));
}

#[test]
fn key_refresh_runs_first_then_throttles_for_a_minute() {
    let mut r = KeyRefresh::new();
    assert!(r.begin(5_000));
    assert!(r.finish(true, 5_000));
    assert_eq!(r.last_ms, Some(5_000));
    assert!(!r.begin(5_000));
    assert!(!r.begin(64_999));
    assert!(r.begin(65_000));
    assert!(!r.begin(4_000));
}

#[test]
fn failed_discovery_keeps_the_old_keys() {
    let mut r = KeyRefresh::new();
    assert!(!r.finish(false, 10_000));
    assert_eq!(r.last_ms, None);
    assert!(r.begin(10_001));
    assert!(r.finish(true, 20_000));
    assert!(!r.finish(false, 90_000));
    assert_eq!(r.last_ms, Some(20_000));
}
