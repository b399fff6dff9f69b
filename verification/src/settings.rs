//! The signed-in user's side of the interface: the name in the menu, the
//! sign-in/out button, and the auto-queen switch, which shows a change at
//! once and falls back to the stored value when saving fails.

use vstd::prelude::*;
use crate::social::UserSummary;
use crate::text::{chars_of, push_range, string_of};

verus! {

/// The part of `email` before its first `@` (all of it when there is
/// none).
pub open spec fn email_name(email: Seq<char>) -> Seq<char>
    decreases email.len(),
{
    if email.len() == 0 {
        email
    } else if email_name(email.drop_last()).len() < email.len() - 1 {
        email_name(email.drop_last())
    } else if email.last() == '@' {
        email.drop_last()
    } else {
        email
    }
}

proof fn lemma_email_name(email: Seq<char>)
    ensures
        email_name(email).len() <= email.len(),
        email_name(email) == email.take(email_name(email).len() as int),
        forall|i: int| 0 <= i < email_name(email).len() ==> email[i] != '@',
        email_name(email).len() < email.len() ==> email[email_name(email).len() as int] == '@',
    decreases email.len(),
{
    if email.len() > 0 {
        let rest = email.drop_last();
        lemma_email_name(rest);
        assert forall|i: int| 0 <= i < email_name(email).len() implies email[i] != '@' by {
            if i < rest.len() {
                assert(email[i] == rest[i]);
            }
        }
        if email_name(rest).len() < rest.len() {
            assert(email.take(email_name(rest).len() as int) =~= rest.take(email_name(rest).len() as int));
        } else {
            assert(email_name(rest) =~= rest);
            if email.last() == '@' {
                assert(email.take(rest.len() as int) =~= rest);
            } else {
                assert(email.take(email.len() as int) =~= email);
            }
        }
    }
}

/// The name the user menu shows: the username, or the start of the email
/// address for a user without one.
pub open spec fn menu_name(user: UserSummary) -> Seq<char> {
    match user.username {
        Some(u) => u@,
        None => email_name(user.email@),
    }
}

impl UserSummary {
    /// The name in the user menu.
    pub fn menu_name(&self) -> (s: String)
        ensures
            s@ == menu_name(*self),
    {
        match &self.username {
            Some(u) => u.clone(),
            None => {
                let e = chars_of(self.email.as_str());
                let n = e.len();
                let mut k: usize = 0;
                while k < n && e[k] != '@'
                    invariant
                        k <= n,
                        n == e@.len(),
                        forall|i: int| 0 <= i < k ==> e@[i] != '@',
                    decreases n - k,
                {
                    k = k + 1;
                }
                proof {
                    lemma_email_name(e@);
                    let m = email_name(e@).len() as int;
                    if m < k {
                        assert(e@[m] == '@');
                    }
                    if k < m {
                        assert(e@[k as int] != '@');
                    }
                }
                let mut out: Vec<char> = Vec::new();
                push_range(&mut out, &e, 0, k);
                assert(out@ =~= e@.take(k as int));
                string_of(&out)
            },
        }
    }
}

/// The account button: a guest is offered to sign in, anyone else to sign
/// out.
pub fn session_button_label(is_guest: bool) -> (s: &'static str)
    ensures
        s@ == (if is_guest { "Sign in"@ } else { "Sign out"@ }),
{
    if is_guest { "Sign in" } else { "Sign out" }
}

/// Whether the current user is a guest (no one signed in counts as not).
pub fn is_guest_user(user: &Option<UserSummary>) -> (b: bool)
    ensures
        b == (user matches Some(u) && u.is_guest),
{
    match user {
        Some(u) => u.is_guest,
        None => false,
    }
}

/// Whether promotions skip the picker: the signed-in user's setting, off
/// when no one is signed in.
pub fn auto_queen_for(user: &Option<UserSummary>) -> (b: bool)
    ensures
        b == (user matches Some(u) && u.settings.auto_queen),
{
    match user {
        Some(u) => u.settings.auto_queen,
        None => false,
    }
}

/// The auto-queen switch: the value being saved, if any, shown in place of
/// the stored one until the stored one catches up.
#[derive(Debug, Clone, Copy, PartialEq, Eq, Structural)]
pub struct AutoQueenSwitch {
    pub pending: Option<bool>,
}

/// What the switch shows, `stored` being the user's saved setting.
pub open spec fn shown_value(s: AutoQueenSwitch, stored: bool) -> bool {
    match s.pending {
        Some(p) => p,
        None => stored,
    }
}

/// The switch after a click.
pub open spec fn after_toggle(s: AutoQueenSwitch, stored: bool) -> AutoQueenSwitch {
    AutoQueenSwitch { pending: Some(!shown_value(s, stored)) }
}

/// The switch once the stored setting reads `stored`.
pub open spec fn after_stored(s: AutoQueenSwitch, stored: bool) -> AutoQueenSwitch {
    if s.pending == Some(stored) {
        AutoQueenSwitch { pending: None }
    } else {
        s
    }
}

impl AutoQueenSwitch {
    /// Nothing being saved.
    pub fn new() -> (s: AutoQueenSwitch)
        ensures
            s.pending is None,
    {
        AutoQueenSwitch { pending: None }
    }

    /// What the switch shows.
    pub fn shown(&self, stored: bool) -> (b: bool)
        ensures
            b == shown_value(*self, stored),
    {
        match self.pending {
            Some(p) => p,
            None => stored,
        }
    }

    /// A click: the switch flips at once, and the returned value is the
    /// setting to save.
    pub fn toggle(&mut self, stored: bool) -> (save: bool)
        ensures
            save == !shown_value(*old(self), stored),
            *final(self) == after_toggle(*old(self), stored),
    {
        let v = !self.shown(stored);
        self.pending = Some(v);
        v
    }

    /// Saving failed: the switch shows the stored value again.
    pub fn save_failed(&mut self)
        ensures
            final(self).pending is None,
    {
        self.pending = None;
    }

    /// The stored setting changed (it is read again after a save): once it
    /// equals the value being saved, that value is no longer pending.
    pub fn stored_changed(&mut self, stored: bool)
        ensures
            *final(self) == after_stored(*old(self), stored),
    {
        if self.pending == Some(stored) {
            self.pending = None;
        }
    }
}

/// A click shows the opposite of what was shown, and keeps showing it once
/// the save has gone through and the stored setting has caught up; a
/// failed save shows the stored setting again.
pub proof fn toggling_shows_the_change(s: AutoQueenSwitch, stored: bool)
    ensures
        shown_value(after_toggle(s, stored), stored) == !shown_value(s, stored),
        shown_value(after_stored(after_toggle(s, stored), !shown_value(s, stored)), !shown_value(s, stored))
            == !shown_value(s, stored),
        after_stored(after_toggle(s, stored), !shown_value(s, stored)).pending is None,
        shown_value(AutoQueenSwitch { pending: None }, stored) == stored,
{
}

} // verus!
