//! The user search box: when a query is worth sending, the debounce that
//! sends only the last of a burst of keystrokes, and what a result row
//! offers.

use vstd::prelude::*;
use crate::analysis::{trim_chars, trimmed};
use crate::labels::relation_label;
use crate::social::FriendRelation;
use crate::text::chars_of;

verus! {

/// How many bytes UTF-8 takes for `c`.
pub open spec fn utf8_width(c: char) -> nat {
    if (c as u32) < 0x80 {
        1
    } else if (c as u32) < 0x800 {
        2
    } else if (c as u32) < 0x10000 {
        3
    } else {
        4
    }
}

/// The length of `s` in UTF-8 bytes (as `str::len`).
pub open spec fn utf8_len(s: Seq<char>) -> nat
    decreases s.len(),
{
    if s.len() == 0 {
        0
    } else {
        utf8_len(s.drop_last()) + utf8_width(s.last())
    }
}

proof fn lemma_utf8_len_grows(s: Seq<char>, k: int)
    requires
        0 <= k <= s.len(),
    ensures
        utf8_len(s.take(k)) <= utf8_len(s),
    decreases s.len() - k,
{
    if k < s.len() {
        assert(s.take(k + 1).drop_last() =~= s.take(k));
        lemma_utf8_len_grows(s, k + 1);
    } else {
        assert(s.take(k) =~= s);
    }
}

/// Whether a query is searched: at least two bytes once trimmed; shorter
/// queries show no results without asking the server.
pub fn search_wanted(query: &str) -> (b: bool)
    ensures
        b == (utf8_len(trimmed(query@)) >= 2),
{
    let t = trim_chars(&chars_of(query));
    let n = t.len();
    let mut bytes: u64 = 0;
    let mut i: usize = 0;
    assert(t@.take(0) =~= Seq::<char>::empty());
    while i < n && bytes < 2
        invariant
            i <= n,
            n == t@.len(),
            bytes == utf8_len(t@.take(i as int)),
            bytes <= 5,
        decreases n - i,
    {
        let c = t[i];
        let w: u64 = if (c as u32) < 0x80 {
            1
        } else if (c as u32) < 0x800 {
            2
        } else if (c as u32) < 0x10000 {
            3
        } else {
            4
        };
        assert(t@.take(i + 1).drop_last() =~= t@.take(i as int));
        bytes = bytes + w;
        i = i + 1;
    }
    proof {
        lemma_utf8_len_grows(t@, i as int);
        if i == n {
            assert(t@.take(i as int) =~= t@);
        }
    }
    bytes >= 2
}

/// What the search box holds: the number of keystrokes so far, the text
/// typed, and the text searched for.
pub struct SearchBoxView {
    pub keystrokes: nat,
    pub typed: Seq<char>,
    pub searching: Seq<char>,
}

/// A keystroke leaving `value` in the box; its ticket is the new number of
/// keystrokes.
pub open spec fn typed_into(s: SearchBoxView, value: Seq<char>) -> SearchBoxView {
    SearchBoxView { keystrokes: s.keystrokes + 1, typed: value, searching: s.searching }
}

/// The debounce timer of the keystroke with `ticket` running out: its
/// `value` is searched for only if no keystroke came after it.
pub open spec fn settled(s: SearchBoxView, ticket: nat, value: Seq<char>) -> SearchBoxView {
    if ticket == s.keystrokes {
        SearchBoxView { searching: value, ..s }
    } else {
        s
    }
}

/// The search box, with a counter of keystrokes that tells a debounce
/// timer whether it is still the latest.
pub struct SearchBox {
    generation: u64,
    query: String,
    searched: String,
}

impl View for SearchBox {
    type V = SearchBoxView;

    closed spec fn view(&self) -> SearchBoxView {
        SearchBoxView { keystrokes: self.generation as nat, typed: self.query@, searching: self.searched@ }
    }
}

impl SearchBox {
    /// An empty box.
    pub fn new() -> (b: SearchBox)
        ensures
            b@ == (SearchBoxView { keystrokes: 0, typed: Seq::empty(), searching: Seq::empty() }),
    {
        let b = SearchBox { generation: 0, query: String::new(), searched: String::new() };
        assert(b@.typed =~= Seq::<char>::empty());
        assert(b@.searching =~= Seq::<char>::empty());
        b
    }

    /// The text typed.
    pub fn query(&self) -> (s: &str)
        ensures
            s@ == self@.typed,
    {
        self.query.as_str()
    }

    /// The text searched for.
    pub fn searched(&self) -> (s: &str)
        ensures
            s@ == self@.searching,
    {
        self.searched.as_str()
    }

    /// A keystroke: the box shows `value`, and the returned ticket is what
    /// the debounce timer for it hands back to `settle`.
    pub fn input(&mut self, value: String) -> (ticket: u64)
        requires
            old(self)@.keystrokes < u64::MAX,
        ensures
            final(self)@ == typed_into(old(self)@, value@),
            ticket == final(self)@.keystrokes,
    {
        self.query = value;
        self.generation = self.generation + 1;
        self.generation
    }

    /// The debounce timer of the keystroke with `ticket` has run out.
    pub fn settle(&mut self, ticket: u64, value: String)
        ensures
            final(self)@ == settled(old(self)@, ticket as nat, value@),
    {
        if ticket == self.generation {
            self.searched = value;
        }
    }
}

/// Of two keystrokes in a row, the first one's timer changes nothing and
/// the second one's searches for what it typed: only the last keystroke of
/// a burst is searched for, whichever timer runs out first.
pub proof fn only_the_last_keystroke_is_searched(s: SearchBoxView, a: Seq<char>, b: Seq<char>)
    ensures
        ({
            let after = typed_into(typed_into(s, a), b);
            let first = s.keystrokes + 1;
            let second = s.keystrokes + 2;
            &&& settled(after, first, a) == after
            &&& settled(settled(after, first, a), second, b).searching == b
            &&& settled(settled(after, second, b), first, a).searching == b
        }),
{
}

/// A search result's button: "Add" while the viewer can still send a
/// request, else a label of the relation ("Pending" once sent).
pub fn result_button(relation: FriendRelation, sent: bool) -> (r: (bool, &'static str))
    ensures
        r.0 == (relation == FriendRelation::Unrelated && !sent),
        r.0 ==> r.1@ == "Add"@,
        !r.0 && sent ==> r.1@ == "Pending"@,
        !r.0 && !sent ==> r.1@ == (match relation {
            FriendRelation::Unrelated => "Add"@,
            FriendRelation::PendingOutgoing => "Pending"@,
            FriendRelation::PendingIncoming => "Respond below"@,
            FriendRelation::Friends => "Friends"@,
        }),
{
    let actionable = relation == FriendRelation::Unrelated && !sent;
    if actionable {
        (true, "Add")
    } else if sent {
        (false, "Pending")
    } else {
        (false, relation_label(relation))
    }
}

} // verus!
