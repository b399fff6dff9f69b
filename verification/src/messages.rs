//! The client/server message vocabulary (those of the server's game
//! messages that carry no floating-point scores are the live-game events of
//! `session`), and connection-quality buckets.

use vstd::prelude::*;
use crate::game::PlayerInfo;
use crate::matchmaking::{Category, RatingMode, TimeControl};
use crate::player::Side;
use crate::social::FriendSummary;

verus! {

#[derive(Debug, Clone, Copy, PartialEq, Eq, Structural)]
pub enum GameOverReason {
    Abort,
    Checkmate,
    Stalemate,
    InsufficientMaterial,
    Repetition,
    FiftyMove,
    DrawAgreement,
    Timeout,
    Resignation,
}

/// What the server tells a chat-room client.
#[derive(Debug)]
pub enum ServerMessage {
    Welcome { username: String },
    UserLeft { username: String },
    MoveMade { uci: String },
    Chat { user: uuid::Uuid, text: String },
}

/// What a chat-room client tells the server.
#[derive(Debug)]
pub enum ClientMessage {
    UserJoined { uuid: uuid::Uuid },
    UserLeft { uuid: uuid::Uuid },
    MoveMade { uci: String },
    Chat { user: uuid::Uuid, text: String },
}

/// What the friends socket pushes: presence, games entered, challenges and
/// changes to the friends list.
#[derive(Debug)]
pub enum FriendsServerMessage {
    /// Who is online, sent once right after connecting.
    OnlineSnapshot { online: Vec<uuid::Uuid> },
    /// A friend's first tab opened, or their last one closed.
    PresenceUpdate { user_id: uuid::Uuid, online: bool },
    /// A friend entered (or left) a game.
    InGameUpdate { user_id: uuid::Uuid, game_id: Option<uuid::Uuid> },
    ChallengeReceived {
        challenge_id: uuid::Uuid,
        from: FriendSummary,
        time_control: TimeControl,
        rating_mode: RatingMode,
    },
    ChallengeCancelled { challenge_id: uuid::Uuid },
    ChallengeDeclined { challenge_id: uuid::Uuid },
    /// Both players go to the new game.
    ChallengeAccepted { challenge_id: uuid::Uuid, game_id: uuid::Uuid },
    /// The list changed; the client fetches it again.
    FriendListChanged,
}

/// A game in progress as the watch page lists it.
#[derive(Debug)]
pub struct WatchGameSummary {
    pub game_id: uuid::Uuid,
    pub white: PlayerInfo,
    pub black: PlayerInfo,
    pub category: Category,
    pub rated: bool,
    pub fen: String,
}

/// What the watch socket pushes.
#[derive(Debug)]
pub enum WatchServerMessage {
    /// The games listed, and how many are in progress in all.
    Roster { games: Vec<WatchGameSummary>, total_active: usize },
    /// The position of one listed game changed.
    Position { game_id: uuid::Uuid, fen: String },
}

#[derive(Debug, Clone, PartialEq, Eq)]
pub enum FriendsClientMessage {
    Connect,
}

#[derive(Debug, Clone, PartialEq, Eq)]
pub enum WatchClientMessage {
    Connect,
}

#[derive(Debug, Clone, PartialEq, Eq)]
pub enum MatchmakingClientMessage {
    Join { time_control: TimeControl, rating_mode: RatingMode },
}

#[derive(Debug)]
pub enum MatchmakingServerMessage {
    Queued { time_control: TimeControl },
    Matched { game: uuid::Uuid, side: Side },
}

/// What a player's client sends about a game. `MoveMade`'s `think_ms` is
/// the time between the position being shown and the move being made.
#[derive(Debug)]
pub enum GameClientMessage {
    UserJoined { game_id: uuid::Uuid },
    MoveMade { uci: String, think_ms: i64 },
    Chat { text: String },
    Resign,
    DrawOffer,
    DrawAccept,
    DrawDecline,
    RematchOffer,
    RematchAccept,
    RematchDecline,
    RematchCancel,
    Ping { client_time_ms: i64 },
}

/// The display level of a round-trip time: 0 below 100 ms, 1 below 250 ms,
/// 2 below 500 ms, 3 from there on.
pub open spec fn rtt_level(rtt_ms: int) -> u8 {
    if rtt_ms < 100 {
        0
    } else if rtt_ms < 250 {
        1
    } else if rtt_ms < 500 {
        2
    } else {
        3
    }
}

/// Buckets a raw round-trip time (ms) into a 0..=3 level for display.
pub fn rtt_bucket(rtt_ms: u32) -> (b: u8)
    ensures
        b == rtt_level(rtt_ms as int),
        b <= 3,
{
    if rtt_ms <= 99 {
        0
    } else if rtt_ms <= 249 {
        1
    } else if rtt_ms <= 499 {
        2
    } else {
        3
    }
}

/// A slower round trip never shows a better level.
pub proof fn rtt_bucket_is_monotone(a: u32, b: u32)
    requires
        a <= b,
    ensures
        rtt_level(a as int) <= rtt_level(b as int),
{
}

} // verus!
