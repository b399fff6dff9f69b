//! A friends list's decisions: what a row shows of a friend's presence
//! (live pushes override what the list was loaded with), what it offers to
//! do, and the time controls a challenge can be sent with.

use vstd::prelude::*;
use crate::game::same_id;
use crate::hub::QuickMatchControl;
use crate::labels::{time_control_label, time_control_label_text};
use crate::matchmaking::{TimeControl, TimeMode};
use crate::social::{FriendActiveGame, FriendRelation, ProfileView};

verus! {

/// Whether a friend shows as online: the latest presence push about them,
/// else what the list was loaded with.
pub fn friend_online(pushed: Option<bool>, listed: bool) -> (b: bool)
    ensures
        b == (match pushed {
            Some(o) => o,
            None => listed,
        }),
{
    match pushed {
        Some(o) => o,
        None => listed,
    }
}

/// The game a friend is shown in: the latest push about their games (which
/// may say they are in none), else the game the list was loaded with.
pub fn friend_game(pushed: Option<Option<uuid::Uuid>>, listed: &Option<FriendActiveGame>) -> (g: Option<uuid::Uuid>)
    ensures
        g == (match pushed {
            Some(over) => over,
            None => match listed {
                Some(a) => Some(a.game_id),
                None => None,
            },
        }),
{
    match pushed {
        Some(over) => over,
        None => match listed {
            Some(a) => Some(a.game_id),
            None => None,
        },
    }
}

/// What one's own friends list offers for a friend.
#[derive(Debug, Clone, Copy)]
pub enum FriendAction {
    /// The friend is in a game: watch it.
    Watch(uuid::Uuid),
    /// Challenge the friend; the button works only while they are online.
    Challenge { enabled: bool },
}

/// A friend in a game can be watched; otherwise they can be challenged,
/// when online.
pub fn friend_action(game: Option<uuid::Uuid>, online: bool) -> (a: FriendAction)
    ensures
        a == (match game {
            Some(g) => FriendAction::Watch(g),
            None => FriendAction::Challenge { enabled: online },
        }),
{
    match game {
        Some(g) => FriendAction::Watch(g),
        None => FriendAction::Challenge { enabled: online },
    }
}

/// A button on someone else's profile.
#[derive(Debug, Clone, Copy)]
pub enum ProfileAction {
    /// "Add Friend": send a friend request.
    SendRequest,
    /// "Cancel request": withdraw the request sent.
    CancelRequest,
    /// "Accept" the request received.
    Accept,
    /// "Decline" the request received.
    Decline,
    /// "Watch" the friend's game.
    Watch(uuid::Uuid),
    /// "Challenge" the friend, possible only while they are online.
    Challenge { enabled: bool },
    /// Remove the friend.
    Unfriend,
}

/// The buttons for `relation`, the friend's game and presence, in order.
pub open spec fn actions_for(relation: FriendRelation, game: Option<uuid::Uuid>, online: bool) -> Seq<ProfileAction> {
    match relation {
        FriendRelation::Unrelated => seq![ProfileAction::SendRequest],
        FriendRelation::PendingOutgoing => seq![ProfileAction::CancelRequest],
        FriendRelation::PendingIncoming => seq![ProfileAction::Accept, ProfileAction::Decline],
        FriendRelation::Friends => seq![
            match game {
                Some(g) => ProfileAction::Watch(g),
                None => ProfileAction::Challenge { enabled: online },
            },
            ProfileAction::Unfriend,
        ],
    }
}

/// The buttons someone else's profile offers the viewer (one's own
/// profile offers none).
pub fn profile_actions(profile: &ProfileView) -> (r: Vec<ProfileAction>)
    ensures
        profile.is_own ==> r@.len() == 0,
        !profile.is_own ==> r@ == actions_for(
            profile.relation,
            match profile.in_game {
                Some(a) => Some(a.game_id),
                None => None,
            },
            profile.online,
        ),
{
    let mut r: Vec<ProfileAction> = Vec::new();
    if profile.is_own {
        return r;
    }
    match profile.relation {
        FriendRelation::Unrelated => {
            r.push(ProfileAction::SendRequest);
        },
        FriendRelation::PendingOutgoing => {
            r.push(ProfileAction::CancelRequest);
        },
        FriendRelation::PendingIncoming => {
            r.push(ProfileAction::Accept);
            r.push(ProfileAction::Decline);
        },
        FriendRelation::Friends => {
            match &profile.in_game {
                Some(a) => r.push(ProfileAction::Watch(a.game_id)),
                None => r.push(ProfileAction::Challenge { enabled: profile.online }),
            }
            r.push(ProfileAction::Unfriend);
        },
    }
    assert(r@ =~= actions_for(
        profile.relation,
        match profile.in_game {
            Some(a) => Some(a.game_id),
            None => None,
        },
        profile.online,
    ));
    r
}

/// The line shown for an empty friends list: one's own list suggests the
/// search.
pub fn empty_friends_label(is_own: bool) -> (s: &'static str)
    ensures
        s@ == (if is_own { "No friends yet — search above to add some"@ } else { "No friends yet"@ }),
{
    if is_own { "No friends yet — search above to add some" } else { "No friends yet" }
}

/// The initial times, in milliseconds, a challenge can be sent with (no
/// increment).
pub open spec fn challenge_times() -> Seq<int> {
    seq![60_000int, 180_000int, 300_000int, 600_000int]
}

fn challenge_control(initial_ms: i64) -> (c: QuickMatchControl)
    ensures
        c.time_control == (TimeControl { initial_time: initial_ms, mode: TimeMode::Increment(0) }),
        c.label@ == time_control_label_text(c.time_control),
{
    let tc = TimeControl { initial_time: initial_ms, mode: TimeMode::Increment(0) };
    QuickMatchControl { label: time_control_label(&tc), time_control: tc }
}

/// The challenge buttons: 1+0, 3+0, 5+0 and 10+0, each labelled with its
/// time control.
pub fn challenge_controls() -> (cs: Vec<QuickMatchControl>)
    ensures
        cs@.len() == 4,
        forall|i: int| 0 <= i < 4 ==> {
            &&& (#[trigger] cs@[i]).time_control == (TimeControl {
                initial_time: challenge_times()[i] as i64,
                mode: TimeMode::Increment(0),
            })
            &&& cs@[i].label@ == time_control_label_text(cs@[i].time_control)
        },
{
    let mut cs: Vec<QuickMatchControl> = Vec::new();
    cs.push(challenge_control(60_000));
    cs.push(challenge_control(180_000));
    cs.push(challenge_control(300_000));
    cs.push(challenge_control(600_000));
    cs
}

/// Whether a challenge's timeout clears the toast: only when the toast
/// still shows that same challenge (another may have replaced it).
pub fn timeout_clears(shown: &Option<uuid::Uuid>, timed_out: &uuid::Uuid) -> (b: bool)
    ensures
        b == (*shown == Some(*timed_out)),
{
    match shown {
        Some(id) => same_id(id, timed_out),
        None => false,
    }
}

} // verus!
