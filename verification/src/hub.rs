//! The quick-match hub: the time controls it offers, and the rules of its
//! rated/casual switch (guests only play casual games; a signed-in player's
//! last choice is remembered as text).

use vstd::prelude::*;
use crate::matchmaking::{rating_mode_text, RatingMode, TimeControl, TimeMode};
use crate::messages::{MatchmakingClientMessage, MatchmakingServerMessage};
use crate::text::{chars_of, nat_text, push_nat, same_chars, string_of};

verus! {

/// One quick-match button: its label and the time control it seeks.
pub struct QuickMatchControl {
    pub label: String,
    pub time_control: TimeControl,
}

/// A heading of the hub and the buttons under it.
pub struct QuickMatchGroup {
    pub label: String,
    pub controls: Vec<QuickMatchControl>,
}

/// `M + S`: whole minutes of initial time, then the increment in seconds.
pub open spec fn quick_label(initial_ms: int, increment_ms: int) -> Seq<char> {
    nat_text((initial_ms / 60_000) as nat) + seq![' ', '+', ' '] + nat_text((increment_ms / 1000) as nat)
}

/// The headings of the hub, in order.
pub open spec fn group_label(g: int) -> Seq<char> {
    if g == 0 {
        seq!['B', 'u', 'l', 'l', 'e', 't']
    } else if g == 1 {
        seq!['B', 'l', 'i', 't', 'z']
    } else {
        seq!['R', 'a', 'p', 'i', 'd']
    }
}

/// The (initial time, increment) pairs, in milliseconds, offered under
/// heading `g`.
pub open spec fn group_controls(g: int) -> Seq<(int, int)> {
    if g == 0 {
        seq![(60_000int, 0int), (60_000int, 1_000int), (120_000int, 1_000int)]
    } else if g == 1 {
        seq![(180_000int, 0int), (180_000int, 2_000int), (300_000int, 0int), (300_000int, 5_000int)]
    } else {
        seq![(600_000int, 0int), (900_000int, 10_000int)]
    }
}

/// Whether `c` is the button for `initial_ms` with `increment_ms`.
pub open spec fn is_button_for(c: QuickMatchControl, pair: (int, int)) -> bool {
    &&& c.time_control == (TimeControl { initial_time: pair.0 as i64, mode: TimeMode::Increment(pair.1 as i64) })
    &&& c.label@ == quick_label(pair.0, pair.1)
}

/// Whether `groups` is the hub's table: the three headings in order, each
/// with its buttons in order.
pub open spec fn is_quick_match_table(groups: Seq<QuickMatchGroup>) -> bool {
    &&& groups.len() == 3
    &&& forall|g: int| 0 <= g < 3 ==> {
        &&& (#[trigger] groups[g]).label@ == group_label(g)
        &&& groups[g].controls@.len() == group_controls(g).len()
        &&& forall|i: int| 0 <= i < group_controls(g).len() ==> is_button_for(#[trigger] groups[g].controls@[i], group_controls(g)[i])
    }
}

fn quick_control(initial_ms: i64, increment_ms: i64) -> (c: QuickMatchControl)
    requires
        0 <= initial_ms,
        0 <= increment_ms,
    ensures
        is_button_for(c, (initial_ms as int, increment_ms as int)),
{
    let mut label: Vec<char> = Vec::new();
    push_nat(&mut label, (initial_ms / 60_000) as u64);
    label.push(' ');
    label.push('+');
    label.push(' ');
    push_nat(&mut label, (increment_ms / 1000) as u64);
    assert(label@ =~= quick_label(initial_ms as int, increment_ms as int));
    QuickMatchControl {
        label: string_of(&label),
        time_control: TimeControl { initial_time: initial_ms, mode: TimeMode::Increment(increment_ms) },
    }
}

fn label_of(chars: &[char]) -> (s: String)
    ensures
        s@ == chars@,
{
    let mut v: Vec<char> = Vec::new();
    let mut i: usize = 0;
    while i < chars.len()
        invariant
            i <= chars@.len(),
            v@ == chars@.subrange(0, i as int),
        decreases chars@.len() - i,
    {
        v.push(chars[i]);
        i = i + 1;
        assert(v@ =~= chars@.subrange(0, i as int));
    }
    assert(chars@.subrange(0, chars@.len() as int) =~= chars@);
    string_of(&v)
}

/// The quick-match table: bullet 1+0, 1+1, 2+1; blitz 3+0, 3+2, 5+0, 5+5;
/// rapid 10+0, 15+10 (minutes + increment seconds).
pub fn quick_match_groups() -> (groups: Vec<QuickMatchGroup>)
    ensures
        is_quick_match_table(groups@),
{
    let mut bullet: Vec<QuickMatchControl> = Vec::new();
    bullet.push(quick_control(60_000, 0));
    bullet.push(quick_control(60_000, 1_000));
    bullet.push(quick_control(120_000, 1_000));
    let mut blitz: Vec<QuickMatchControl> = Vec::new();
    blitz.push(quick_control(180_000, 0));
    blitz.push(quick_control(180_000, 2_000));
    blitz.push(quick_control(300_000, 0));
    blitz.push(quick_control(300_000, 5_000));
    let mut rapid: Vec<QuickMatchControl> = Vec::new();
    rapid.push(quick_control(600_000, 0));
    rapid.push(quick_control(900_000, 10_000));
    let mut groups: Vec<QuickMatchGroup> = Vec::new();
    groups.push(QuickMatchGroup { label: label_of(&['B', 'u', 'l', 'l', 'e', 't']), controls: bullet });
    groups.push(QuickMatchGroup { label: label_of(&['B', 'l', 'i', 't', 'z']), controls: blitz });
    groups.push(QuickMatchGroup { label: label_of(&['R', 'a', 'p', 'i', 'd']), controls: rapid });
    assert(group_controls(0).len() == 3);
    assert(group_controls(1).len() == 4);
    assert(group_controls(2).len() == 2);
    groups
}

/// The mode the hub starts in: casual for a guest or where the remembered
/// choice reads `casual`, else the given one.
pub open spec fn restored_mode(is_guest: bool, saved: Option<Seq<char>>, current: RatingMode) -> RatingMode {
    if is_guest {
        RatingMode::Casual
    } else if saved == Some(rating_mode_text(RatingMode::Casual)) {
        RatingMode::Casual
    } else {
        current
    }
}

/// The rating mode to show once the hub is on screen, from whether the
/// player is a guest and the remembered choice, if any.
pub fn restored_rating_mode(is_guest: bool, saved: Option<&str>, current: RatingMode) -> (m: RatingMode)
    ensures
        m == restored_mode(is_guest, match saved { Some(s) => Some(s@), None => None }, current),
{
    if is_guest {
        return RatingMode::Casual;
    }
    match saved {
        Some(s) => {
            let casual = RatingMode::Casual.to_string();
            if same_chars(&chars_of(s), casual.as_str()) {
                RatingMode::Casual
            } else {
                current
            }
        },
        None => current,
    }
}

/// A press of the rated or casual switch: a guest's press changes nothing
/// (`None`); otherwise the requested mode, with the text to remember it by.
pub fn requested_rating_mode(is_guest: bool, requested: RatingMode) -> (r: Option<(RatingMode, String)>)
    ensures
        is_guest ==> r is None,
        !is_guest ==> (r matches Some((m, s)) && m == requested && s@ == rating_mode_text(requested)),
{
    if is_guest {
        None
    } else {
        Some((requested, requested.to_string()))
    }
}

/// How the rated/casual switch is drawn.
#[derive(Clone, Copy, Debug, PartialEq, Eq, Structural)]
pub struct RatingSwitch {
    pub rated_active: bool,
    pub rated_disabled: bool,
    pub casual_active: bool,
    pub sign_in_hint: bool,
}

/// The switch for `mode`: a guest sees "Rated" disabled and never active,
/// and a hint to sign in.
pub fn rating_switch(is_guest: bool, mode: RatingMode) -> (s: RatingSwitch)
    ensures
        s.rated_active == (mode == RatingMode::Rated && !is_guest),
        s.rated_disabled == is_guest,
        s.casual_active == (mode == RatingMode::Casual),
        s.sign_in_hint == is_guest,
{
    let rated = mode == RatingMode::Rated;
    RatingSwitch { rated_active: rated && !is_guest, rated_disabled: is_guest, casual_active: !rated, sign_in_hint: is_guest }
}

/// A signed-in player's choice, once remembered, is what the hub shows the
/// next time it opens (it opens on "Rated" until told otherwise).
pub proof fn remembered_choice_is_restored(choice: RatingMode)
    ensures
        restored_mode(false, Some(rating_mode_text(choice)), RatingMode::Rated) == choice,
{
    if choice == RatingMode::Rated {
        assert(rating_mode_text(RatingMode::Rated) != rating_mode_text(RatingMode::Casual)) by {
            assert(rating_mode_text(RatingMode::Rated).len() != rating_mode_text(RatingMode::Casual).len());
        }
    }
}

/// What the search dialog sends as it opens: a request to join the queue
/// for the chosen time control and rating mode.
pub fn join_message(time_control: &TimeControl, rating_mode: RatingMode) -> (m: MatchmakingClientMessage)
    ensures
        m == (MatchmakingClientMessage::Join { time_control: *time_control, rating_mode }),
{
    let mode = match time_control.mode {
        TimeMode::Increment(i) => TimeMode::Increment(i),
        TimeMode::Delay(d) => TimeMode::Delay(d),
    };
    MatchmakingClientMessage::Join { time_control: TimeControl { initial_time: time_control.initial_time, mode }, rating_mode }
}

/// The game a queue message sends the player to: the one they were matched
/// into; none while they are still queued.
pub fn matched_game(msg: &MatchmakingServerMessage) -> (g: Option<uuid::Uuid>)
    ensures
        g == (match *msg {
            MatchmakingServerMessage::Matched { game, .. } => Some(game),
            MatchmakingServerMessage::Queued { .. } => None,
        }),
{
    match msg {
        MatchmakingServerMessage::Matched { game, .. } => Some(*game),
        MatchmakingServerMessage::Queued { .. } => None,
    }
}

/// The search dialog's timer: the whole seconds spent waiting, then `s`.
pub fn waited_label(seconds: u32) -> (s: String)
    ensures
        s@ == nat_text(seconds as nat) + seq!['s'],
{
    let mut out: Vec<char> = Vec::new();
    push_nat(&mut out, seconds as u64);
    out.push('s');
    string_of(&out)
}

} // verus!
