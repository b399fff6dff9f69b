//! Text shown around the board and in lists: clock readings, time-control
//! labels, friend-relation buttons, result badges and player names.

use vstd::prelude::*;
use crate::game::PlayerInfo;
use crate::matchmaking::{trunc_div, TimeControl, TimeMode};
use crate::social::{FriendRelation, FriendSummary, ProfileView};
use crate::text::{chars_of, int_text, pad2_text, push_int, push_pad2, push_str, string_of};

verus! {

/// `a - b * trunc_div(a, b)`: the remainder of Rust's `%` on integers.
pub open spec fn trunc_rem(a: int, b: int) -> int {
    a - b * trunc_div(a, b)
}

/// Rust's `/` on `i64` by a positive divisor (rounding toward zero).
pub fn tdiv(a: i64, b: i64) -> (q: i64)
    requires
        b > 0,
    ensures
        q == trunc_div(a as int, b as int),
{
    if a >= 0 {
        a / b
    } else {
        let wide: i128 = 0i128 - (a as i128);
        let q: i128 = wide / (b as i128);
        assert(q <= wide) by (nonlinear_arith)
            requires
                wide >= 0,
                b >= 1,
                q == wide / (b as i128),
        ;
        (0i128 - q) as i64
    }
}

/// Rust's `%` on `i64` by a positive divisor (sign of the dividend).
pub fn trem(a: i64, b: i64) -> (r: i64)
    requires
        b > 0,
    ensures
        r == trunc_rem(a as int, b as int),
        -b < r < b,
{
    let q = tdiv(a, b);
    assert(-b < trunc_rem(a as int, b as int) < b) by (nonlinear_arith)
        requires
            b > 0,
            q == trunc_div(a as int, b as int),
            a >= 0 ==> q == (a as int) / (b as int),
            a < 0 ==> q == -((-(a as int)) / (b as int)),
    {
        if a >= 0 {
            assert(0 <= (a as int) % (b as int) < b);
        } else {
            assert(0 <= (-(a as int)) % (b as int) < b);
        }
    }
    let r: i128 = (a as i128) - (b as i128) * (q as i128);
    r as i64
}

/// A number padded with zeros to two characters, as `{:02}` writes it; the
/// sign counts toward the width, so a negative number is never padded.
pub open spec fn pad2_signed(v: int) -> Seq<char> {
    if v >= 0 { pad2_text(v as nat) } else { int_text(v) }
}

fn push_pad2_signed(out: &mut Vec<char>, v: i64)
    ensures
        final(out)@ == old(out)@ + pad2_signed(v as int),
{
    if v >= 0 {
        push_pad2(out, v as u64);
    } else {
        push_int(out, v);
    }
}

/// The countdown text for `ms` left: `SS.t` (seconds and tenths) from 20
/// seconds down, `M:SS` below ten minutes, `MM:SS` from there on.
pub open spec fn clock_text(ms: int) -> Seq<char> {
    let total = trunc_div(ms, 1000);
    let mins = trunc_div(total, 60);
    let secs = trunc_rem(total, 60);
    if ms <= 20_000 {
        pad2_signed(secs) + seq!['.'] + int_text(trunc_div(trunc_rem(ms, 1000), 100))
    } else if ms < 600_000 {
        int_text(mins) + seq![':'] + pad2_signed(secs)
    } else {
        pad2_signed(mins) + seq![':'] + pad2_signed(secs)
    }
}

/// Formats a clock reading for display.
pub fn format_clock(ms: i64) -> (s: String)
    ensures
        s@ == clock_text(ms as int),
{
    let total = tdiv(ms, 1000);
    let mins = tdiv(total, 60);
    let secs = trem(total, 60);
    let mut out: Vec<char> = Vec::new();
    if ms <= 20_000 {
        push_pad2_signed(&mut out, secs);
        out.push('.');
        let tenths = tdiv(trem(ms, 1000), 100);
        push_int(&mut out, tenths);
    } else if ms < 600_000 {
        push_int(&mut out, mins);
        out.push(':');
        push_pad2_signed(&mut out, secs);
    } else {
        push_pad2_signed(&mut out, mins);
        out.push(':');
        push_pad2_signed(&mut out, secs);
    }
    assert(out@ =~= clock_text(ms as int));
    string_of(&out)
}

/// The time control as `<minutes>+<increment seconds>` (delay shown as
/// increment), with initial times that are not whole minutes as `<m>m<s>s`
/// and those under a minute as `<s>s`.
pub open spec fn time_control_text(tc: TimeControl) -> Seq<char> {
    let initial_sec = trunc_div(tc.initial_time as int, 1000);
    let inc_sec = match tc.mode {
        TimeMode::Increment(i) => trunc_div(i as int, 1000),
        TimeMode::Delay(i) => trunc_div(i as int, 1000),
    };
    let initial = if initial_sec >= 60 && initial_sec % 60 == 0 {
        int_text(initial_sec / 60)
    } else if initial_sec >= 60 {
        int_text(initial_sec / 60) + seq!['m'] + int_text(initial_sec % 60) + seq!['s']
    } else {
        int_text(initial_sec) + seq!['s']
    };
    initial + seq!['+'] + int_text(inc_sec)
}

/// Formats a time control for the matchmaking dialog.
pub fn format_time_control(tc: &TimeControl) -> (s: String)
    ensures
        s@ == time_control_text(*tc),
{
    let initial_sec = tdiv(tc.initial_time, 1000);
    let inc_sec = match tc.mode {
        TimeMode::Increment(i) => tdiv(i, 1000),
        TimeMode::Delay(i) => tdiv(i, 1000),
    };
    let mut out: Vec<char> = Vec::new();
    if initial_sec >= 60 && initial_sec % 60 == 0 {
        push_int(&mut out, initial_sec / 60);
    } else if initial_sec >= 60 {
        push_int(&mut out, initial_sec / 60);
        out.push('m');
        push_int(&mut out, initial_sec % 60);
        out.push('s');
    } else {
        push_int(&mut out, initial_sec);
        out.push('s');
    }
    out.push('+');
    push_int(&mut out, inc_sec);
    assert(out@ =~= time_control_text(*tc));
    string_of(&out)
}

/// `<minutes>+<increment seconds>`, or `<minutes>+0` for a delay.
pub open spec fn time_control_label_text(tc: TimeControl) -> Seq<char> {
    let minutes = trunc_div(tc.initial_time as int, 60_000);
    match tc.mode {
        TimeMode::Increment(inc) => int_text(minutes) + seq!['+'] + int_text(trunc_div(inc as int, 1000)),
        TimeMode::Delay(_) => int_text(minutes) + seq!['+', '0'],
    }
}

/// The short label of a challenge's time control.
pub fn time_control_label(tc: &TimeControl) -> (s: String)
    ensures
        s@ == time_control_label_text(*tc),
{
    let minutes = tdiv(tc.initial_time, 60_000);
    let mut out: Vec<char> = Vec::new();
    push_int(&mut out, minutes);
    out.push('+');
    match tc.mode {
        TimeMode::Increment(inc) => {
            push_int(&mut out, tdiv(inc, 1000));
        },
        TimeMode::Delay(_) => {
            out.push('0');
        },
    }
    assert(out@ =~= time_control_label_text(*tc));
    string_of(&out)
}

/// The button text for a search result, by the viewer's relation to it.
pub fn relation_label(relation: FriendRelation) -> (s: &'static str)
    ensures
        s@ == (match relation {
            FriendRelation::Unrelated => "Add"@,
            FriendRelation::PendingOutgoing => "Pending"@,
            FriendRelation::PendingIncoming => "Respond below"@,
            FriendRelation::Friends => "Friends"@,
        }),
{
    match relation {
        FriendRelation::Unrelated => "Add",
        FriendRelation::PendingOutgoing => "Pending",
        FriendRelation::PendingIncoming => "Respond below",
        FriendRelation::Friends => "Friends",
    }
}

/// How a finished game went for the viewer.
#[derive(Debug, Clone, Copy, PartialEq, Eq, Structural)]
pub enum RecentGameResult {
    Won,
    Lost,
    Drawn,
    Aborted,
}

/// The badge text and its style classes for a game result.
pub fn result_badge(result: RecentGameResult) -> (r: (&'static str, &'static str))
    ensures
        (r.0@, r.1@) == (match result {
            RecentGameResult::Won => ("\u{2713} Won"@, "text-emerald-400/80"@),
            RecentGameResult::Lost => ("\u{2715} Lost"@, "text-red-400/80"@),
            RecentGameResult::Drawn => ("\u{00bd} Draw"@, "text-zinc-300"@),
            RecentGameResult::Aborted => ("\u{2014} Aborted"@, "text-zinc-500"@),
        }),
{
    match result {
        RecentGameResult::Won => ("\u{2713} Won", "text-emerald-400/80"),
        RecentGameResult::Lost => ("\u{2715} Lost", "text-red-400/80"),
        RecentGameResult::Drawn => ("\u{00bd} Draw", "text-zinc-300"),
        RecentGameResult::Aborted => ("\u{2014} Aborted", "text-zinc-500"),
    }
}

/// A rating, or an em dash when there is none.
pub fn rating_text(rating: Option<i32>) -> (s: String)
    ensures
        s@ == (match rating {
            Some(r) => int_text(r as int),
            None => "\u{2014}"@,
        }),
{
    let mut out: Vec<char> = Vec::new();
    match rating {
        Some(r) => {
            push_int(&mut out, r as i64);
        },
        None => {
            push_str(&mut out, "\u{2014}");
        },
    }
    assert(out@ =~= (match rating {
        Some(r) => int_text(r as int),
        None => "\u{2014}"@,
    }));
    string_of(&out)
}

/// A rating card's change since the last game: `+d` for a gain, `d` for a
/// loss, an em dash when there was no change or none is known.
pub fn rating_diff_text(diff: Option<i32>) -> (s: String)
    ensures
        s@ == (match diff {
            Some(d) => if d > 0 {
                seq!['+'] + int_text(d as int)
            } else if d < 0 {
                int_text(d as int)
            } else {
                "\u{2014}"@
            },
            None => "\u{2014}"@,
        }),
{
    let mut out: Vec<char> = Vec::new();
    match diff {
        Some(d) if d > 0 => {
            out.push('+');
            push_int(&mut out, d as i64);
        },
        Some(d) if d < 0 => {
            push_int(&mut out, d as i64);
        },
        _ => {
            push_str(&mut out, "\u{2014}");
        },
    }
    assert(out@ =~= (match diff {
        Some(d) => if d > 0 {
            seq!['+'] + int_text(d as int)
        } else if d < 0 {
            int_text(d as int)
        } else {
            "\u{2014}"@
        },
        None => "\u{2014}"@,
    }));
    string_of(&out)
}

/// The style of a rating card's change: green for a gain, red for a loss,
/// grey otherwise (no change counts as none).
pub fn rating_diff_class(diff: Option<i32>) -> (s: &'static str)
    ensures
        s@ == (match diff {
            Some(d) => if d > 0 {
                "text-[11px] font-semibold text-emerald-400/80"@
            } else if d < 0 {
                "text-[11px] font-semibold text-red-400/80"@
            } else {
                "text-[11px] font-semibold text-zinc-600"@
            },
            None => "text-[11px] font-semibold text-zinc-600"@,
        }),
{
    let d = match diff {
        Some(d) => d,
        None => 0,
    };
    if d > 0 {
        "text-[11px] font-semibold text-emerald-400/80"
    } else if d < 0 {
        "text-[11px] font-semibold text-red-400/80"
    } else {
        "text-[11px] font-semibold text-zinc-600"
    }
}

/// The new-game button: `New <time control>`, or `New Game` without one.
pub fn new_game_label(tc_label: &str) -> (s: String)
    ensures
        s@ == (if tc_label@.len() == 0 { "New Game"@ } else { "New "@ + tc_label@ }),
{
    let mut out: Vec<char> = Vec::new();
    if tc_label.unicode_len() == 0 {
        push_str(&mut out, "New Game");
    } else {
        push_str(&mut out, "New ");
        push_str(&mut out, tc_label);
    }
    string_of(&out)
}

/// A username, or `Anonymous` for a user without one.
pub open spec fn name_or_anonymous(username: Option<String>) -> Seq<char> {
    match username {
        Some(u) => u@,
        None => "Anonymous"@,
    }
}

fn shown_name(username: &Option<String>) -> (s: String)
    ensures
        s@ == name_or_anonymous(*username),
{
    match username {
        Some(u) => u.clone(),
        None => "Anonymous".to_string(),
    }
}

/// The name shown for a player in a watched game.
pub fn player_name(p: &PlayerInfo) -> (s: String)
    ensures
        s@ == name_or_anonymous(p.username),
{
    shown_name(&p.username)
}

impl FriendSummary {
    /// The name shown for a friend or search result.
    pub fn display_name(&self) -> (s: String)
        ensures
            s@ == name_or_anonymous(self.username),
    {
        shown_name(&self.username)
    }

    /// The profile link `/u/<username>`, for a user with a username.
    pub fn profile_href(&self) -> (s: Option<String>)
        ensures
            match self.username {
                Some(u) => s matches Some(h) && h@ == "/u/"@ + u@,
                None => s is None,
            },
    {
        match &self.username {
            Some(name) => {
                let mut out: Vec<char> = Vec::new();
                push_str(&mut out, "/u/");
                push_str(&mut out, name.as_str());
                Some(string_of(&out))
            },
            None => None,
        }
    }
}

impl ProfileView {
    /// The name shown at the top of a profile.
    pub fn display_name(&self) -> (s: String)
        ensures
            s@ == name_or_anonymous(self.user.username),
    {
        shown_name(&self.user.username)
    }
}

} // verus!
