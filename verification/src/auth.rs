//! OAuth sign-in: the credential shapes, the checks on a provider's
//! callback, and the decisions that resolve a provider identity to a local
//! account (find the linked account, else link by verified email, else
//! create one).

use vstd::prelude::*;
use crate::text::{chars_of, push_str, same_chars, string_of};

verus! {

pub enum Credentials {
    GitHubOAuth { code: String },
    GoogleOAuth { code: String, nonce: String },
}

pub struct GitHubCallbackQuery {
    pub code: String,
    pub state: String,
}

pub struct GoogleCallbackQuery {
    pub code: String,
    pub state: String,
}

pub struct GitHubUser {
    pub id: i64,
    pub email: Option<String>,
}

pub struct GitHubEmail {
    pub email: String,
    pub primary: bool,
    pub verified: bool,
}

/// Why signing in failed; the outside errors are carried as their
/// messages.
#[derive(Debug)]
pub enum AuthError {
    Database(String),
    Http(String),
    NoVerifiedPrimaryEmail,
    OidcConfig(String),
    UsernameTaken(String),
}

fn str_eq(a: &str, b: &str) -> (r: bool)
    ensures
        r == (a@ == b@),
{
    let av = chars_of(a);
    same_chars(&av, b)
}

/// Whether the CSRF token kept in the session matches the callback's
/// `state`; a missing token never matches.
pub open spec fn state_matches(stored: Option<String>, state: String) -> bool {
    match stored {
        Some(t) => t@ == state@,
        None => false,
    }
}

/// The credentials a GitHub callback carries, when the session's CSRF
/// token matches its `state`; `None` sends the user back to `/login`.
pub fn github_credentials(stored_csrf: Option<String>, query: GitHubCallbackQuery) -> (c: Option<Credentials>)
    ensures
        match c {
            Some(Credentials::GitHubOAuth { code }) => state_matches(stored_csrf, query.state) && code@ == query.code@,
            Some(Credentials::GoogleOAuth { .. }) => false,
            None => !state_matches(stored_csrf, query.state),
        },
{
    match &stored_csrf {
        Some(t) => {
            if str_eq(t.as_str(), query.state.as_str()) {
                Some(Credentials::GitHubOAuth { code: query.code })
            } else {
                None
            }
        },
        None => None,
    }
}

/// The credentials a Google callback carries, when the session's CSRF
/// token matches its `state` and the session holds the sign-in nonce.
pub fn google_credentials(
    stored_csrf: Option<String>,
    stored_nonce: Option<String>,
    query: GoogleCallbackQuery,
) -> (c: Option<Credentials>)
    ensures
        match c {
            Some(Credentials::GoogleOAuth { code, nonce }) => state_matches(stored_csrf, query.state) && code@
                == query.code@ && (stored_nonce matches Some(n) && nonce@ == n@),
            Some(Credentials::GitHubOAuth { .. }) => false,
            None => !state_matches(stored_csrf, query.state) || stored_nonce is None,
        },
{
    let ok = match &stored_csrf {
        Some(t) => str_eq(t.as_str(), query.state.as_str()),
        None => false,
    };
    if !ok {
        return None;
    }
    match stored_nonce {
        Some(n) => Some(Credentials::GoogleOAuth { code: query.code, nonce: n }),
        None => None,
    }
}

/// Where a callback sends the browser: home after a completed sign-in,
/// back to the login page otherwise.
pub fn redirect_after_sign_in(signed_in: bool) -> (to: &'static str)
    ensures
        to@ == (if signed_in { "/"@ } else { "/login"@ }),
{
    if signed_in { "/" } else { "/login" }
}

/// The first address that is both primary and verified.
pub open spec fn primary_verified(emails: Seq<(Seq<char>, bool, bool)>, k: int) -> Option<Seq<char>>
    decreases emails.len() - k,
{
    if 0 <= k < emails.len() {
        if emails[k].1 && emails[k].2 { Some(emails[k].0) } else { primary_verified(emails, k + 1) }
    } else {
        None
    }
}

pub open spec fn emails_view(emails: Seq<GitHubEmail>) -> Seq<(Seq<char>, bool, bool)> {
    emails.map_values(|e: GitHubEmail| (e.email@, e.primary, e.verified))
}

/// The GitHub account's primary verified address, if it has one.
pub fn primary_verified_email(emails: &[GitHubEmail]) -> (r: Option<String>)
    ensures
        match r {
            Some(e) => primary_verified(emails_view(emails@), 0) == Some(e@),
            None => primary_verified(emails_view(emails@), 0) is None,
        },
{
    let mut k: usize = 0;
    while k < emails.len()
        invariant
            k <= emails@.len(),
            primary_verified(emails_view(emails@), 0) == primary_verified(emails_view(emails@), k as int),
        decreases emails@.len() - k,
    {
        if emails[k].primary && emails[k].verified {
            return Some(emails[k].email.clone());
        }
        k = k + 1;
    }
    None
}

/// `u` is the GitHub user `id` with the address `e`.
pub open spec fn identity_is(u: GitHubUser, id: i64, e: Seq<char>) -> bool {
    u.id == id && (u.email matches Some(x) && x@ == e)
}

/// The GitHub identity to sign in with: the user's id with the first
/// address the account lists as both primary and verified. The address on
/// the public profile is not taken on its own word: it counts only as it
/// appears in that list, since accounts are linked by a verified address.
/// An account that lists no primary verified address fails.
pub fn github_identity(user: GitHubUser, emails: &[GitHubEmail]) -> (r: Result<GitHubUser, AuthError>)
    ensures
        match primary_verified(emails_view(emails@), 0) {
            Some(p) => r matches Ok(u) && identity_is(u, user.id, p),
            None => r matches Err(AuthError::NoVerifiedPrimaryEmail),
        },
{
    match primary_verified_email(emails) {
        Some(e) => Ok(GitHubUser { id: user.id, email: Some(e) }),
        None => Err(AuthError::NoVerifiedPrimaryEmail),
    }
}

/// An address `primary_verified` gives is listed as primary and verified.
pub proof fn primary_verified_is_listed(emails: Seq<(Seq<char>, bool, bool)>, k: int)
    requires
        0 <= k,
    ensures
        primary_verified(emails, k) matches Some(e) ==> exists|i: int|
            k <= i < emails.len() && #[trigger] emails[i] == (e, true, true),
        primary_verified(emails, k) is None <==> forall|i: int|
            k <= i < emails.len() ==> !(#[trigger] emails[i].1 && emails[i].2),
    decreases emails.len() - k,
{
    if k < emails.len() {
        primary_verified_is_listed(emails, k + 1);
        if emails[k].1 && emails[k].2 {
            assert(emails[k] == (emails[k].0, true, true));
        }
    }
}

/// Google's email claim, kept only when Google marks it verified.
pub fn google_verified_email(email: Option<String>, email_verified: Option<bool>) -> (r: Option<String>)
    ensures
        match email {
            Some(e) => if email_verified == Some(true) { r matches Some(x) && x@ == e@ } else { r is None },
            None => r is None,
        },
{
    match email {
        Some(e) => match email_verified {
            Some(true) => Some(e),
            _ => None,
        },
        None => None,
    }
}

/// Whether a refresh of Google's signing keys may run, `elapsed_ms` after
/// the last one: at most one a minute.
pub fn may_refresh_keys(elapsed_ms: u64) -> (b: bool)
    ensures
        b == (elapsed_ms >= 60_000),
{
    elapsed_ms >= 60_000
}

/// The refresh of Google's signing keys: when the last successful one
/// happened (milliseconds on a monotonic clock), `None` before any. The
/// discovery request and the swap of the client are the caller's; this
/// decides whether to ask, and what a reply changes.
#[derive(Debug, Clone, Copy, PartialEq, Eq, Structural)]
pub struct KeyRefresh {
    pub last_ms: Option<u64>,
}

/// Whether a refresh asked for at `now_ms` goes ahead: always before the
/// first success, else once a minute has passed since it (no time has passed
/// when the clock reads earlier).
pub open spec fn refresh_due(last_ms: Option<u64>, now_ms: u64) -> bool {
    match last_ms {
        None => true,
        Some(l) => now_ms >= l && now_ms - l >= 60_000,
    }
}

impl KeyRefresh {
    /// No refresh has happened yet, so the first one is never held back.
    pub fn new() -> (r: KeyRefresh)
        ensures
            r.last_ms is None,
    {
        KeyRefresh { last_ms: None }
    }

    /// Whether to run discovery now, or skip this refresh as throttled.
    pub fn begin(&self, now_ms: u64) -> (go: bool)
        ensures
            go == refresh_due(self.last_ms, now_ms),
    {
        match self.last_ms {
            None => true,
            Some(l) => now_ms >= l && may_refresh_keys(now_ms - l),
        }
    }

    /// Takes the discovery's reply, at `now_ms`. On success the client built
    /// from the new metadata is to be installed and the refresh time becomes
    /// `now_ms`; on failure nothing changes, and the keys in use keep
    /// serving. Returns whether to install the new client.
    pub fn finish(&mut self, discovered: bool, now_ms: u64) -> (install: bool)
        ensures
            install == discovered,
            final(self).last_ms == (if discovered { Some(now_ms) } else { old(self).last_ms }),
    {
        if discovered {
            self.last_ms = Some(now_ms);
        }
        discovered
    }
}

/// After a successful refresh at `done_ms`, a refresh asked for within the
/// next minute is skipped and one asked for a minute or more later goes
/// ahead.
pub proof fn refresh_throttles_after_success(done_ms: u64, now_ms: u64)
    ensures
        now_ms < done_ms + 60_000 ==> !refresh_due(Some(done_ms), now_ms),
        now_ms >= done_ms + 60_000 ==> refresh_due(Some(done_ms), now_ms),
{
}

#[derive(Debug, Clone, Copy, PartialEq, Eq, Structural)]
pub enum Provider {
    GitHub,
    Google,
}

pub open spec fn provider_name(p: Provider) -> Seq<char> {
    match p {
        Provider::GitHub => "github"@,
        Provider::Google => "google"@,
    }
}

/// The address a new account gets when the provider gave no verified one:
/// `<provider>_<provider user id>`, which cannot collide with a real
/// address.
pub open spec fn placeholder_email(p: Provider, provider_user_id: Seq<char>) -> Seq<char> {
    provider_name(p) + "_"@ + provider_user_id
}

/// How a sign-in ended.
#[derive(Debug, Clone, Copy, PartialEq, Eq, Structural)]
pub enum SignInKind {
    /// The provider identity was already linked to this account.
    Returning,
    /// A new account was created for the identity.
    Created,
    /// The identity was linked to the account holding its verified email.
    Linked,
}

/// Where resolving a provider identity to an account stands.
pub enum LoginState {
    /// Looking for the account already linked to the identity.
    FindingLinked { provider: Provider, provider_user_id: String, verified_email: Option<String> },
    /// Looking for an account holding the identity's verified email.
    FindingByEmail { provider: Provider, provider_user_id: String, email: String },
    /// Creating an account with `email`.
    Creating { provider: Provider, provider_user_id: String, email: String },
    /// Recording the link from the identity to `user`.
    Linking { provider: Provider, provider_user_id: String, user: uuid::Uuid, created: bool },
    /// Signed in as `user`.
    Done { user: uuid::Uuid, kind: SignInKind },
    /// An answer came that does not fit the step.
    Failed,
}

/// What the store answered.
pub enum LoginEvent {
    Found(uuid::Uuid),
    NotFound,
    Created(uuid::Uuid),
    Linked,
}

/// What to ask the store next, or to sign in.
pub enum LoginAction {
    FindLinked { provider: Provider, provider_user_id: String },
    FindByEmail { email: String },
    CreateUser { email: String },
    LinkAccount { user: uuid::Uuid, provider: Provider, provider_user_id: String },
    SignIn { user: uuid::Uuid, kind: SignInKind },
    Nothing,
}

pub open spec fn is_finding_by_email(s: LoginState, p: Provider, id: Seq<char>, email: Seq<char>) -> bool {
    s matches LoginState::FindingByEmail { provider, provider_user_id, email: e } && provider == p && provider_user_id@ == id
        && e@ == email
}

pub open spec fn is_creating(s: LoginState, p: Provider, id: Seq<char>, email: Seq<char>) -> bool {
    s matches LoginState::Creating { provider, provider_user_id, email: e } && provider == p && provider_user_id@ == id
        && e@ == email
}

pub open spec fn is_linking(s: LoginState, p: Provider, id: Seq<char>, u: uuid::Uuid, created: bool) -> bool {
    s matches LoginState::Linking { provider, provider_user_id, user, created: c } && provider == p
        && provider_user_id@ == id && user == u && c == created
}

pub open spec fn asks_find_by_email(a: LoginAction, email: Seq<char>) -> bool {
    a matches LoginAction::FindByEmail { email: e } && e@ == email
}

pub open spec fn asks_create(a: LoginAction, email: Seq<char>) -> bool {
    a matches LoginAction::CreateUser { email: e } && e@ == email
}

pub open spec fn asks_link(a: LoginAction, u: uuid::Uuid, p: Provider, id: Seq<char>) -> bool {
    a matches LoginAction::LinkAccount { user, provider, provider_user_id } && user == u && provider == p
        && provider_user_id@ == id
}

/// The first step of resolving `provider_user_id` (with the verified
/// email the provider gave, if any): look for its linked account.
pub fn begin_login(provider: Provider, provider_user_id: String, verified_email: Option<String>) -> (r: (LoginState, LoginAction))
    ensures
        r.0 matches LoginState::FindingLinked { provider: p, provider_user_id: id, verified_email: v } && p == provider
            && id@ == provider_user_id@ && v == verified_email,
        r.1 matches LoginAction::FindLinked { provider: p, provider_user_id: id } && p == provider && id@ == provider_user_id@,
{
    let id2 = provider_user_id.clone();
    (
        LoginState::FindingLinked { provider, provider_user_id, verified_email },
        LoginAction::FindLinked { provider, provider_user_id: id2 },
    )
}

fn placeholder(provider: Provider, provider_user_id: &String) -> (e: String)
    ensures
        e@ == placeholder_email(provider, provider_user_id@),
{
    let mut out: Vec<char> = Vec::new();
    match provider {
        Provider::GitHub => push_str(&mut out, "github"),
        Provider::Google => push_str(&mut out, "google"),
    }
    push_str(&mut out, "_");
    push_str(&mut out, provider_user_id.as_str());
    string_of(&out)
}

/// One step of resolving an identity: a linked account signs in; without
/// one, a verified email is looked up and its account linked, and
/// otherwise an account is created (with the verified email, or the
/// placeholder) and linked; after linking the user signs in. An answer
/// that does not fit the step fails.
pub fn login_step(state: LoginState, event: LoginEvent) -> (r: (LoginState, LoginAction))
    ensures
        match (state, event) {
            (LoginState::FindingLinked { .. }, LoginEvent::Found(u)) =>
                r.0 == LoginState::Done { user: u, kind: SignInKind::Returning }
                && r.1 == LoginAction::SignIn { user: u, kind: SignInKind::Returning },
            (LoginState::FindingLinked { provider, provider_user_id, verified_email }, LoginEvent::NotFound) =>
                match verified_email {
                    Some(e) => is_finding_by_email(r.0, provider, provider_user_id@, e@) && asks_find_by_email(r.1, e@),
                    None => is_creating(r.0, provider, provider_user_id@, placeholder_email(provider, provider_user_id@))
                        && asks_create(r.1, placeholder_email(provider, provider_user_id@)),
                },
            (LoginState::FindingByEmail { provider, provider_user_id, .. }, LoginEvent::Found(u)) =>
                is_linking(r.0, provider, provider_user_id@, u, false) && asks_link(r.1, u, provider, provider_user_id@),
            (LoginState::FindingByEmail { provider, provider_user_id, email }, LoginEvent::NotFound) =>
                is_creating(r.0, provider, provider_user_id@, email@) && asks_create(r.1, email@),
            (LoginState::Creating { provider, provider_user_id, .. }, LoginEvent::Created(u)) =>
                is_linking(r.0, provider, provider_user_id@, u, true) && asks_link(r.1, u, provider, provider_user_id@),
            (LoginState::Linking { user, created, .. }, LoginEvent::Linked) => {
                let kind = if created { SignInKind::Created } else { SignInKind::Linked };
                r.0 == LoginState::Done { user, kind } && r.1 == LoginAction::SignIn { user, kind }
            },
            _ => r.0 is Failed && r.1 is Nothing,
        },
{
    match (state, event) {
        (LoginState::FindingLinked { .. }, LoginEvent::Found(u)) => (
            LoginState::Done { user: u, kind: SignInKind::Returning },
            LoginAction::SignIn { user: u, kind: SignInKind::Returning },
        ),
        (LoginState::FindingLinked { provider, provider_user_id, verified_email }, LoginEvent::NotFound) => {
            match verified_email {
                Some(e) => {
                    let e2 = e.clone();
                    (LoginState::FindingByEmail { provider, provider_user_id, email: e }, LoginAction::FindByEmail { email: e2 })
                },
                None => {
                    let email = placeholder(provider, &provider_user_id);
                    let e2 = email.clone();
                    (LoginState::Creating { provider, provider_user_id, email }, LoginAction::CreateUser { email: e2 })
                },
            }
        },
        (LoginState::FindingByEmail { provider, provider_user_id, .. }, LoginEvent::Found(u)) => {
            let id2 = provider_user_id.clone();
            (
                LoginState::Linking { provider, provider_user_id, user: u, created: false },
                LoginAction::LinkAccount { user: u, provider, provider_user_id: id2 },
            )
        },
        (LoginState::FindingByEmail { provider, provider_user_id, email }, LoginEvent::NotFound) => {
            let e2 = email.clone();
            (LoginState::Creating { provider, provider_user_id, email }, LoginAction::CreateUser { email: e2 })
        },
        (LoginState::Creating { provider, provider_user_id, .. }, LoginEvent::Created(u)) => {
            let id2 = provider_user_id.clone();
            (
                LoginState::Linking { provider, provider_user_id, user: u, created: true },
                LoginAction::LinkAccount { user: u, provider, provider_user_id: id2 },
            )
        },
        (LoginState::Linking { user, created, .. }, LoginEvent::Linked) => {
            let kind = if created { SignInKind::Created } else { SignInKind::Linked };
            (LoginState::Done { user, kind }, LoginAction::SignIn { user, kind })
        },
        _ => (LoginState::Failed, LoginAction::Nothing),
    }
}

} // verus!
