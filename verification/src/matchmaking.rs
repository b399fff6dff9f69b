//! Game configuration: time controls, their rating categories and the
//! matchmaking queue bucket a seek is placed in.

use vstd::prelude::*;
use crate::text::{digit_char, digits_value, int_text, is_digit, lemma_nat_text_reads_back, nat_text, push_int, string_of};

verus! {

#[derive(Clone, Debug)]
pub struct GameConfig {
    pub time_control: TimeControl,
    pub variant: Variant,
    pub rated: RatingMode,
}

#[derive(Clone, Copy, Debug, PartialEq, Eq, Structural)]
pub enum Category {
    Bullet,
    Blitz,
    Rapid,
    Classical,
}

#[derive(Clone, Debug, PartialEq, Eq, Structural)]
pub enum Variant {
    Standard,
    Chess960,
}

/// A time control: `initial_time` and the mode's amount are milliseconds.
#[derive(Clone, Debug, PartialEq, Eq, Structural)]
pub struct TimeControl {
    pub initial_time: i64,
    pub mode: TimeMode,
}

#[derive(Clone, Debug, PartialEq, Eq, Structural)]
pub enum TimeMode {
    Increment(i64),
    Delay(i64),
}

#[derive(Clone, Copy, PartialEq, Eq, Hash, Debug, Structural)]
pub enum RatingMode {
    Casual,
    Rated,
}

/// Integer division rounded toward zero, as Rust's `/` on signed integers.
pub open spec fn trunc_div(a: int, b: int) -> int {
    if a >= 0 {
        a / b
    } else {
        -((-a) / b)
    }
}

/// Whole seconds of a millisecond amount, truncated toward zero.
pub open spec fn whole_seconds(ms: int) -> int {
    trunc_div(ms, 1000)
}

/// The category of a time control with `initial_time` milliseconds.
pub open spec fn category_of(initial_time: int) -> Category {
    let seconds = whole_seconds(initial_time);
    if seconds < 120 {
        Category::Bullet
    } else if seconds < 300 {
        Category::Blitz
    } else if seconds < 1500 {
        Category::Rapid
    } else {
        Category::Classical
    }
}

pub open spec fn rating_mode_text(r: RatingMode) -> Seq<char> {
    match r {
        RatingMode::Casual => seq!['c', 'a', 's', 'u', 'a', 'l'],
        RatingMode::Rated => seq!['r', 'a', 't', 'e', 'd'],
    }
}

pub open spec fn category_text(c: Category) -> Seq<char> {
    match c {
        Category::Bullet => seq!['b', 'u', 'l', 'l', 'e', 't'],
        Category::Blitz => seq!['b', 'l', 'i', 't', 'z'],
        Category::Rapid => seq!['r', 'a', 'p', 'i', 'd'],
        Category::Classical => seq!['c', 'l', 'a', 's', 's', 'i', 'c', 'a', 'l'],
    }
}

/// The queue bucket `mm:<seconds>+<amount>:<i|d>:<casual|rated>`.
pub open spec fn bucket_text(tc: TimeControl, rated: RatingMode) -> Seq<char> {
    let (amount, kind) = match tc.mode {
        TimeMode::Increment(i) => (i, 'i'),
        TimeMode::Delay(d) => (d, 'd'),
    };
    seq!['m', 'm', ':'] + int_text(whole_seconds(tc.initial_time as int)) + seq!['+']
        + int_text(amount as int) + seq![':', kind, ':'] + rating_mode_text(rated)
}

/// Whole seconds of `ms`, truncated toward zero.
pub fn seconds_of(ms: i64) -> (s: i64)
    ensures
        s == whole_seconds(ms as int),
{
    if ms >= 0 {
        ms / 1000
    } else {
        let wide: i128 = 0i128 - (ms as i128);
        let q: i128 = wide / 1000;
        (0i128 - q) as i64
    }
}

pub fn push_chars(out: &mut Vec<char>, s: &[char])
    ensures
        final(out)@ == old(out)@ + s@,
{
    let ghost start = out@;
    let mut i: usize = 0;
    while i < s.len()
        invariant
            i <= s@.len(),
            out@ == start + s@.subrange(0, i as int),
        decreases s@.len() - i,
    {
        out.push(s[i]);
        i = i + 1;
        assert(out@ =~= start + s@.subrange(0, i as int));
    }
    assert(s@.subrange(0, s@.len() as int) =~= s@);
}

impl TimeControl {
    /// Bullet below two minutes of initial time, blitz below five, rapid
    /// below twenty-five, classical from there on.
    pub fn category(&self) -> (c: Category)
        ensures
            c == category_of(self.initial_time as int),
    {
        let seconds = seconds_of(self.initial_time);
        if seconds < 120 {
            Category::Bullet
        } else if seconds < 300 {
            Category::Blitz
        } else if seconds < 1500 {
            Category::Rapid
        } else {
            Category::Classical
        }
    }

    /// The matchmaking queue this time control and rating mode wait in.
    pub fn bucket(&self, rated: RatingMode) -> (s: String)
        ensures
            s@ == bucket_text(*self, rated),
    {
        let seconds = seconds_of(self.initial_time);
        let mut out: Vec<char> = Vec::new();
        push_chars(&mut out, &['m', 'm', ':']);
        push_int(&mut out, seconds);
        out.push('+');
        let (amount, kind) = match self.mode {
            TimeMode::Increment(i) => (i, 'i'),
            TimeMode::Delay(d) => (d, 'd'),
        };
        push_int(&mut out, amount);
        push_chars(&mut out, &[':', kind, ':']);
        let name = rated.name_chars();
        let ghost before = out@;
        let mut k: usize = 0;
        while k < name.len()
            invariant
                k <= name@.len(),
                name@ == rating_mode_text(rated),
                out@ == before + name@.subrange(0, k as int),
            decreases name@.len() - k,
        {
            out.push(name[k]);
            k = k + 1;
            assert(out@ =~= before + name@.subrange(0, k as int));
        }
        assert(out@ =~= bucket_text(*self, rated));
        string_of(&out)
    }
}

impl RatingMode {
    pub fn is_rated(&self) -> (b: bool)
        ensures
            b == (*self == RatingMode::Rated),
    {
        match self {
            RatingMode::Casual => false,
            RatingMode::Rated => true,
        }
    }

    fn name_chars(&self) -> (s: Vec<char>)
        ensures
            s@ == rating_mode_text(*self),
    {
        match self {
            RatingMode::Casual => vec!['c', 'a', 's', 'u', 'a', 'l'],
            RatingMode::Rated => vec!['r', 'a', 't', 'e', 'd'],
        }
    }

    /// The lower-case name: `casual` or `rated`.
    pub fn to_string(&self) -> (s: String)
        ensures
            s@ == rating_mode_text(*self),
    {
        string_of(&self.name_chars())
    }
}

impl Category {
    /// Every category, fastest first.
    pub fn all() -> (v: Vec<Category>)
        ensures
            v@ == seq![Category::Bullet, Category::Blitz, Category::Rapid, Category::Classical],
    {
        let mut v: Vec<Category> = Vec::new();
        v.push(Category::Bullet);
        v.push(Category::Blitz);
        v.push(Category::Rapid);
        v.push(Category::Classical);
        assert(v@ =~= seq![Category::Bullet, Category::Blitz, Category::Rapid, Category::Classical]);
        v
    }

    /// The lower-case name: `bullet`, `blitz`, `rapid` or `classical`.
    pub fn to_string(&self) -> (s: String)
        ensures
            s@ == category_text(*self),
    {
        let v = match self {
            Category::Bullet => vec!['b', 'u', 'l', 'l', 'e', 't'],
            Category::Blitz => vec!['b', 'l', 'i', 't', 'z'],
            Category::Rapid => vec!['r', 'a', 'p', 'i', 'd'],
            Category::Classical => vec!['c', 'l', 'a', 's', 's', 'i', 'c', 'a', 'l'],
        };
        string_of(&v)
    }
}

/// The rank of a category, from bullet (0) to classical (3).
pub open spec fn category_rank(c: Category) -> int {
    match c {
        Category::Bullet => 0,
        Category::Blitz => 1,
        Category::Rapid => 2,
        Category::Classical => 3,
    }
}

/// More initial time never gives a faster category.
pub proof fn category_is_monotone(a: int, b: int)
    requires
        a <= b,
    ensures
        category_rank(category_of(a)) <= category_rank(category_of(b)),
{
    if a >= 0 {
        vstd::arithmetic::div_mod::lemma_div_is_ordered(a, b, 1000);
    } else if b >= 0 {
        assert((-a) / 1000 >= 0) by (nonlinear_arith)
            requires
                -a > 0,
        ;
    } else {
        vstd::arithmetic::div_mod::lemma_div_is_ordered(-b, -a, 1000);
    }
}

proof fn lemma_int_text_chars(i: int)
    ensures
        int_text(i).len() >= 1,
        forall|k: int| 0 <= k < int_text(i).len() ==> (is_digit(#[trigger] int_text(i)[k]) || int_text(i)[k] == '-'),
        (int_text(i)[0] == '-') == (i < 0),
{
    if i < 0 {
        lemma_nat_text_reads_back((-i) as nat);
        let d = nat_text((-i) as nat);
        assert forall|k: int| 0 <= k < int_text(i).len() implies (is_digit(#[trigger] int_text(i)[k]) || int_text(i)[k] == '-') by {
            if k > 0 {
                assert(int_text(i)[k] == d[k - 1]);
            }
        }
    } else {
        lemma_nat_text_reads_back(i as nat);
        assert(is_digit(nat_text(i as nat)[0]));
    }
}

proof fn lemma_int_text_injective(a: int, b: int)
    requires
        int_text(a) == int_text(b),
    ensures
        a == b,
{
    lemma_int_text_chars(a);
    lemma_int_text_chars(b);
    if a < 0 {
        lemma_nat_text_reads_back((-a) as nat);
        lemma_nat_text_reads_back((-b) as nat);
        assert(int_text(a).drop_first() =~= nat_text((-a) as nat));
        assert(int_text(b).drop_first() =~= nat_text((-b) as nat));
    } else {
        lemma_nat_text_reads_back(a as nat);
        lemma_nat_text_reads_back(b as nat);
    }
}

/// Two texts that each hold no `c` and are followed by `c` split alike.
proof fn lemma_split_at(x1: Seq<char>, y1: Seq<char>, x2: Seq<char>, y2: Seq<char>, c: char)
    requires
        x1 + seq![c] + y1 == x2 + seq![c] + y2,
        forall|k: int| 0 <= k < x1.len() ==> x1[k] != c,
        forall|k: int| 0 <= k < x2.len() ==> x2[k] != c,
    ensures
        x1 == x2,
        y1 == y2,
{
    let s = x1 + seq![c] + y1;
    let s2 = x2 + seq![c] + y2;
    if x1.len() < x2.len() {
        assert(s[x1.len() as int] == c);
        assert(s2[x1.len() as int] == x2[x1.len() as int]);
    } else if x2.len() < x1.len() {
        assert(s2[x2.len() as int] == c);
        assert(s[x2.len() as int] == x1[x2.len() as int]);
    } else {
        assert(x1 =~= s.subrange(0, x1.len() as int));
        assert(x2 =~= s2.subrange(0, x2.len() as int));
        assert(y1 =~= s.subrange(x1.len() + 1int, s.len() as int));
        assert(y2 =~= s2.subrange(x2.len() + 1int, s2.len() as int));
    }
}

/// The amount and kind letter of a time control's mode.
pub open spec fn mode_parts(m: TimeMode) -> (i64, char) {
    match m {
        TimeMode::Increment(i) => (i, 'i'),
        TimeMode::Delay(d) => (d, 'd'),
    }
}

proof fn lemma_no_sep(i: int, c: char)
    requires
        c == '+' || c == ':',
    ensures
        forall|k: int| 0 <= k < int_text(i).len() ==> int_text(i)[k] != c,
{
    lemma_int_text_chars(i);
    assert forall|k: int| 0 <= k < int_text(i).len() implies int_text(i)[k] != c by {
        assert(is_digit(int_text(i)[k]) || int_text(i)[k] == '-');
    }
}

proof fn lemma_tail_parts(a1: int, k1: char, r1: RatingMode, a2: int, k2: char, r2: RatingMode)
    requires
        int_text(a1) + seq![':'] + (seq![k1, ':'] + rating_mode_text(r1)) == int_text(a2) + seq![':'] + (seq![k2, ':']
            + rating_mode_text(r2)),
    ensures
        a1 == a2,
        k1 == k2,
        r1 == r2,
{
    lemma_no_sep(a1, ':');
    lemma_no_sep(a2, ':');
    lemma_split_at(int_text(a1), seq![k1, ':'] + rating_mode_text(r1), int_text(a2), seq![k2, ':'] + rating_mode_text(r2), ':');
    lemma_int_text_injective(a1, a2);
    let u1 = seq![k1, ':'] + rating_mode_text(r1);
    let u2 = seq![k2, ':'] + rating_mode_text(r2);
    assert(u1[0] == k1);
    assert(u2[0] == k2);
    assert(rating_mode_text(r1) =~= u1.subrange(2, u1.len() as int));
    assert(rating_mode_text(r2) =~= u2.subrange(2, u2.len() as int));
    if r1 != r2 {
        assert(rating_mode_text(r1).len() != rating_mode_text(r2).len());
    }
}

proof fn lemma_bucket_shape(tc: TimeControl, r: RatingMode)
    ensures
        bucket_text(tc, r).subrange(3, bucket_text(tc, r).len() as int) == int_text(whole_seconds(tc.initial_time as int)) + seq!['+']
            + (int_text(mode_parts(tc.mode).0 as int) + seq![':'] + (seq![mode_parts(tc.mode).1, ':'] + rating_mode_text(r))),
{
    let b = bucket_text(tc, r);
    assert(b.subrange(3, b.len() as int) =~= int_text(whole_seconds(tc.initial_time as int)) + seq!['+'] + (int_text(
        mode_parts(tc.mode).0 as int,
    ) + seq![':'] + (seq![mode_parts(tc.mode).1, ':'] + rating_mode_text(r))));
}

/// Two seeks wait in the same queue exactly when they have the same whole
/// seconds of initial time, the same increment or delay, and the same
/// rating mode.
pub proof fn same_bucket_same_seek(tc1: TimeControl, r1: RatingMode, tc2: TimeControl, r2: RatingMode)
    ensures
        (bucket_text(tc1, r1) == bucket_text(tc2, r2)) <==> (whole_seconds(tc1.initial_time as int) == whole_seconds(
            tc2.initial_time as int,
        ) && tc1.mode == tc2.mode && r1 == r2),
{
    if bucket_text(tc1, r1) == bucket_text(tc2, r2) {
        lemma_bucket_shape(tc1, r1);
        lemma_bucket_shape(tc2, r2);
        let w1 = whole_seconds(tc1.initial_time as int);
        let w2 = whole_seconds(tc2.initial_time as int);
        let (a1, k1) = mode_parts(tc1.mode);
        let (a2, k2) = mode_parts(tc2.mode);
        let rest1 = int_text(a1 as int) + seq![':'] + (seq![k1, ':'] + rating_mode_text(r1));
        let rest2 = int_text(a2 as int) + seq![':'] + (seq![k2, ':'] + rating_mode_text(r2));
        lemma_no_sep(w1, '+');
        lemma_no_sep(w2, '+');
        lemma_split_at(int_text(w1), rest1, int_text(w2), rest2, '+');
        lemma_int_text_injective(w1, w2);
        lemma_tail_parts(a1 as int, k1, r1, a2 as int, k2, r2);
    }
}

} // verus!
