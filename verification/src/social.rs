//! Friends and profiles, user settings and puzzle summaries.

use vstd::prelude::*;

verus! {

/// The identity shown for a friend or a search result.
#[derive(Debug)]
pub struct FriendSummary {
    pub id: uuid::Uuid,
    pub username: Option<String>,
    pub avatar_url: Option<String>,
}

/// A friend's game in progress, as a bystander sees it.
#[derive(Debug)]
pub struct FriendActiveGame {
    pub game_id: uuid::Uuid,
    pub opponent_username: Option<String>,
}

/// One row of a friends list.
#[derive(Debug)]
pub struct FriendRow {
    pub user: FriendSummary,
    pub online: bool,
    pub in_game: Option<FriendActiveGame>,
}

#[derive(Debug)]
pub struct UserSearchResult {
    pub user: FriendSummary,
    pub relation: FriendRelation,
}

/// What a profile page shows of a user's social side; `relation` is the
/// viewer's relation to the owner, meaningless when `is_own`.
#[derive(Debug)]
pub struct ProfileView {
    pub user: FriendSummary,
    pub bio: Option<String>,
    pub country: Option<String>,
    pub is_own: bool,
    pub relation: FriendRelation,
    pub online: bool,
    pub in_game: Option<FriendActiveGame>,
    pub friends: Vec<FriendRow>,
    pub incoming_requests: Vec<FriendSummary>,
    pub outgoing_requests: Vec<FriendSummary>,
}

#[derive(Debug, Clone, Copy, PartialEq, Eq, Structural)]
pub enum FriendRelation {
    Unrelated,
    PendingOutgoing,
    PendingIncoming,
    Friends,
}

/// A user's stored preferences; every field has a default, so a stored
/// record lacking a key reads as that default.
#[derive(Debug, Clone, Copy, PartialEq, Eq, Structural)]
pub struct UserSettings {
    /// Skip the promotion-role picker and always promote to queen.
    pub auto_queen: bool,
}

impl Default for UserSettings {
    fn default() -> (s: UserSettings)
        ensures
            s.auto_queen == false,
    {
        UserSettings { auto_queen: false }
    }
}

/// The signed-in user as the client sees it (no server-only fields).
#[derive(Debug)]
pub struct UserSummary {
    pub id: uuid::Uuid,
    pub email: String,
    pub username: Option<String>,
    pub avatar_url: Option<String>,
    pub bio: Option<String>,
    pub country: Option<String>,
    pub is_guest: bool,
    pub settings: UserSettings,
}

/// Everything the client needs to render and solve a puzzle: `moves` is
/// the full solution in space-separated UCI, the first move being the
/// opponent's setup move.
#[derive(Debug, Clone)]
pub struct PuzzleSummary {
    pub id: String,
    pub fen: String,
    pub moves: String,
    pub rating: i32,
    pub themes: String,
}

} // verus!
