//! Clock readings as text: the `H:MM:SS` stamps of PGN `%clk` comments, and
//! the countdown shown next to the board.

use vstd::prelude::*;
use crate::text::{
    lemma_fields_append, lemma_fields_nonempty, lemma_nat_text_reads_back, lemma_pad2_reads_back,
    all_digits, all_digits_in, chars_of, digit_value, digits_value, fields, int_text, is_ascii_digit, is_digit,
    is_space, is_space_char, nat_text, pad2_text, parse_i64, parse_i64_in, push_nat, push_pad2, read_digits,
    slice_string, split_on, string_of,
};

verus! {

/// `H:MM:SS` for a millisecond reading, negative readings shown as zero.
pub open spec fn timestamp_text(ms: int) -> Seq<char> {
    let ms = if ms < 0 { 0 } else { ms };
    let total = ms / 1000;
    nat_text((total / 3600) as nat) + seq![':'] + pad2_text(((total % 3600) / 60) as nat) + seq![':']
        + pad2_text((total % 60) as nat)
}

/// Formats `ms` as `H:MM:SS` (hours unpadded), clamping negatives to zero.
pub fn format_clock_timestamp(ms: i64) -> (s: String)
    ensures
        s@ == timestamp_text(ms as int),
{
    let ms: i64 = if ms < 0 { 0 } else { ms };
    let total = (ms / 1000) as u64;
    let mut out: Vec<char> = Vec::new();
    push_nat(&mut out, total / 3600);
    out.push(':');
    push_pad2(&mut out, (total % 3600) / 60);
    out.push(':');
    push_pad2(&mut out, total % 60);
    assert(out@ =~= timestamp_text(ms as int));
    string_of(&out)
}

/// Index of the first `.` in `s`, or its length.
pub open spec fn dot_index(s: Seq<char>) -> int
    decreases s.len(),
{
    if s.len() == 0 {
        0
    } else if s[0] == '.' {
        0
    } else {
        1 + dot_index(s.drop_first())
    }
}

pub proof fn lemma_dot_index(s: Seq<char>)
    ensures
        0 <= dot_index(s) <= s.len(),
        dot_index(s) < s.len() ==> s[dot_index(s)] == '.',
        forall|j: int| 0 <= j < dot_index(s) ==> s[j] != '.',
    decreases s.len(),
{
    if s.len() > 0 && s[0] != '.' {
        lemma_dot_index(s.drop_first());
        assert forall|j: int| 0 <= j < dot_index(s) implies s[j] != '.' by {
            if j > 0 { assert(s[j] == s.drop_first()[j - 1]); }
        }
    }
}

/// The milliseconds (rounded half away from zero) that the first three
/// fractional digits `f` and the fourth one give.
pub open spec fn fraction_ms(f: Seq<char>) -> int {
    (if f.len() > 0 { digit_value(f[0]) * 100 } else { 0 })
        + (if f.len() > 1 { digit_value(f[1]) * 10 } else { 0 })
        + (if f.len() > 2 { digit_value(f[2]) } else { 0 })
        + (if f.len() > 3 && digit_value(f[3]) >= 5 { 1int } else { 0int })
}

/// A seconds field read as a decimal number (`[+-]digits[.digits]`, at
/// least one digit) and converted to whole milliseconds, rounding half away
/// from zero; `None` when it is not such a number.
pub open spec fn seconds_ms(s: Seq<char>) -> Option<int> {
    let neg = s.len() > 0 && s[0] == '-';
    let body = if s.len() > 0 && (s[0] == '-' || s[0] == '+') { s.drop_first() } else { s };
    let k = dot_index(body);
    let ip = body.subrange(0, k);
    let fp = if k < body.len() { body.subrange(k + 1, body.len() as int) } else { Seq::empty() };
    if all_digits(ip) && all_digits(fp) && ip.len() + fp.len() > 0 {
        let mag = digits_value(ip) * 1000 + fraction_ms(fp);
        Some(if neg { -mag } else { mag })
    } else {
        None
    }
}

/// `H:M:S` (hours and minutes integers, seconds decimal) in milliseconds;
/// `None` unless there are exactly three fields that all parse and the total
/// fits in an `i64`.
pub open spec fn timestamp_ms(ts: Seq<char>) -> Option<i64> {
    let parts = fields(ts, ':');
    if parts.len() == 3 {
        match (parse_i64(parts[0]), parse_i64(parts[1]), seconds_ms(parts[2])) {
            (Some(h), Some(m), Some(s)) => {
                let total = h * 3_600_000 + m * 60_000 + s;
                if i64::MIN <= total <= i64::MAX { Some(total as i64) } else { None }
            },
            _ => None,
        }
    } else {
        None
    }
}

fn dot_from(s: &Vec<char>, start: usize) -> (k: usize)
    requires
        start <= s@.len(),
    ensures
        start <= k <= s@.len(),
        k - start == dot_index(s@.subrange(start as int, s@.len() as int)),
{
    let n = s.len();
    let mut k = start;
    while k < n && s[k] != '.'
        invariant
            start <= k <= n,
            n == s@.len(),
            dot_index(s@.subrange(start as int, n as int)) == (k - start) + dot_index(s@.subrange(k as int, n as int)),
        decreases n - k,
    {
        assert(s@.subrange(k as int, n as int).drop_first() =~= s@.subrange(k + 1, n as int));
        k = k + 1;
    }
    proof {
        if k < n {
            assert(s@.subrange(k as int, n as int)[0] == '.');
        } else {
            assert(s@.subrange(k as int, n as int).len() == 0);
        }
    }
    k
}

fn fraction_of(s: &Vec<char>, from: usize) -> (f: u128)
    requires
        from <= s@.len(),
        all_digits(s@.subrange(from as int, s@.len() as int)),
    ensures
        f == fraction_ms(s@.subrange(from as int, s@.len() as int)),
        f <= 1000,
{
    let n = s.len();
    let flen = n - from;
    let ghost fp = s@.subrange(from as int, n as int);
    proof {
        if flen > 0 { assert(fp[0] == s@[from as int]); assert(is_digit(fp[0])); }
        if flen > 1 { assert(fp[1] == s@[from + 1]); assert(is_digit(fp[1])); }
        if flen > 2 { assert(fp[2] == s@[from + 2]); assert(is_digit(fp[2])); }
        if flen > 3 { assert(fp[3] == s@[from + 3]); assert(is_digit(fp[3])); }
    }
    let d0: u128 = if flen > 0 { (s[from] as u32 - 48) as u128 } else { 0 };
    let d1: u128 = if flen > 1 { (s[from + 1] as u32 - 48) as u128 } else { 0 };
    let d2: u128 = if flen > 2 { (s[from + 2] as u32 - 48) as u128 } else { 0 };
    let up: u128 = if flen > 3 && (s[from + 3] as u32 - 48) >= 5 { 1 } else { 0 };
    d0 * 100 + d1 * 10 + d2 + up
}

fn seconds_field_ms(s: &Vec<char>) -> (r: Option<i128>)
    ensures
        r matches Some(v) ==> seconds_ms(s@) == Some(v as int) && -0x400_0000_0000_0000_0000_0000 <= v <= 0x400_0000_0000_0000_0000_0000,
        r is None ==> (seconds_ms(s@) matches Some(v) ==> (v > 0x200_0000_0000_0000_0000_0000 || v < -0x200_0000_0000_0000_0000_0000)),
{
    let n = s.len();
    let neg = n > 0 && s[0] == '-';
    let start: usize = if n > 0 && (s[0] == '-' || s[0] == '+') { 1 } else { 0 };
    let ghost body = if s@.len() > 0 && (s@[0] == '-' || s@[0] == '+') { s@.drop_first() } else { s@ };
    assert(body =~= s@.subrange(start as int, n as int));
    let k = dot_from(s, start);
    let ghost kk = dot_index(body);
    assert(body.subrange(0, kk) =~= s@.subrange(start as int, k as int));
    let fstart = if k < n { k + 1 } else { n };
    assert(k < n ==> body.subrange(kk + 1, body.len() as int) =~= s@.subrange(fstart as int, n as int));
    assert(k >= n ==> s@.subrange(fstart as int, n as int) =~= Seq::<char>::empty());
    let ghost ip_s = s@.subrange(start as int, k as int);
    let ghost fp = s@.subrange(fstart as int, n as int);
    assert(seconds_ms(s@) == (if all_digits(ip_s) && all_digits(fp) && ip_s.len() + fp.len() > 0 {
        Some(if neg { -(digits_value(ip_s) * 1000 + fraction_ms(fp)) } else { digits_value(ip_s) * 1000 + fraction_ms(fp) })
    } else {
        None::<int>
    }));
    if !all_digits_in(s, start, k) || !all_digits_in(s, fstart, n) || (k - start) + (n - fstart) == 0 {
        return None;
    }
    let frac = fraction_of(s, fstart);
    let ip = match read_digits(s, start, k, 0x1_0000_0000_0000_0000_0000u128) {
        Some(v) => v,
        None => { return None; },
    };
    let mag: u128 = ip * 1000 + frac;
    if neg {
        Some(0i128 - (mag as i128))
    } else {
        Some(mag as i128)
    }
}

/// Parses `H:MM:SS` or `H:MM:SS.f` into milliseconds. The seconds field is
/// read as an exact decimal and rounded to the millisecond, half away from
/// zero; `None` when the text does not have that shape or the total does not
/// fit in an `i64`. No floating point is involved, so this is not a float
/// parse: seconds written with an exponent (`1e1`) or as `inf` or `NaN` are
/// refused rather than read, a total too large for an `i64` gives `None`
/// rather than a saturated value, and a fraction of four or more digits is
/// rounded from its exact value (`1.0005` gives 1001 ms, where a binary
/// float, slightly below it, would give 1000).
pub fn parse_clock_timestamp(ts: &str) -> (r: Option<i64>)
    ensures
        r == timestamp_ms(ts@),
{
    let chars = chars_of(ts);
    let parts = split_on(&chars, ':');
    if parts.len() != 3 {
        return None;
    }
    let p0 = &parts[0];
    let p1 = &parts[1];
    let p2 = &parts[2];
    assert(p0@.subrange(0, p0@.len() as int) =~= p0@);
    assert(p1@.subrange(0, p1@.len() as int) =~= p1@);
    let h = parse_i64_in(p0, 0, p0.len());
    let m = parse_i64_in(p1, 0, p1.len());
    let sec = seconds_field_ms(p2);
    match (h, m, sec) {
        (Some(h), Some(m), Some(s)) => {
            let total: i128 = (h as i128) * 3_600_000 + (m as i128) * 60_000 + s;
            if total >= -0x8000_0000_0000_0000i128 && total <= 0x7fff_ffff_ffff_ffffi128 {
                Some(total as i64)
            } else {
                None
            }
        },
        (Some(h), Some(m), None) => {
            proof {
                match seconds_ms(p2@) {
                    Some(v) => {
                        let total = h * 3_600_000 + m * 60_000 + v;
                        assert(!(i64::MIN <= total <= i64::MAX));
                    },
                    None => {},
                }
            }
            None
        },
        _ => None,
    }
}

/// Index of the first occurrence of `%clk` in `s` at or after `i`.
pub open spec fn clk_index_from(s: Seq<char>, i: int) -> Option<int>
    decreases s.len() - i,
{
    if 0 <= i && i + 4 <= s.len() {
        if s[i] == '%' && s[i + 1] == 'c' && s[i + 2] == 'l' && s[i + 3] == 'k' {
            Some(i)
        } else {
            clk_index_from(s, i + 1)
        }
    } else {
        None
    }
}

/// `s` without its leading whitespace (as `str::trim_start`).
pub open spec fn trim_start(s: Seq<char>) -> Seq<char>
    decreases s.len(),
{
    if s.len() > 0 && is_space(s[0]) {
        trim_start(s.drop_first())
    } else {
        s
    }
}

pub open spec fn is_stamp_char(c: char) -> bool {
    is_digit(c) || c == ':' || c == '.'
}

/// Length of the leading run of digits, `:` and `.` in `s`.
pub open spec fn stamp_len(s: Seq<char>) -> int
    decreases s.len(),
{
    if s.len() > 0 && is_stamp_char(s[0]) {
        1 + stamp_len(s.drop_first())
    } else {
        0
    }
}

/// The clock reading of a comment: the stamp after its first `%clk` and any
/// whitespace, when there is one and it parses.
pub open spec fn clk_comment_ms(comment: Seq<char>) -> Option<i64> {
    match clk_index_from(comment, 0) {
        Some(i) => {
            let rest = trim_start(comment.subrange(i + 4, comment.len() as int));
            timestamp_ms(rest.subrange(0, stamp_len(rest)))
        },
        None => None,
    }
}

pub proof fn lemma_stamp_len(s: Seq<char>)
    ensures
        0 <= stamp_len(s) <= s.len(),
    decreases s.len(),
{
    if s.len() > 0 && is_stamp_char(s[0]) {
        lemma_stamp_len(s.drop_first());
    }
}

/// The clock reading of a `%clk` comment such as `[%clk 1:23:45.6]`.
pub fn parse_clk_comment(comment: &str) -> (r: Option<i64>)
    ensures
        r == clk_comment_ms(comment@),
{
    let c = chars_of(comment);
    clk_in_chars(&c)
}

/// As `parse_clk_comment`, on characters.
pub fn clk_in_chars(c: &Vec<char>) -> (r: Option<i64>)
    ensures
        r == clk_comment_ms(c@),
{
    let n = c.len();
    let mut i: usize = 0;
    while n >= 4 && i <= n - 4 && !(c[i] == '%' && c[i + 1] == 'c' && c[i + 2] == 'l' && c[i + 3] == 'k')
        invariant
            n == c@.len(),
            clk_index_from(c@, 0) == clk_index_from(c@, i as int),
        decreases n - i,
    {
        i = i + 1;
    }
    if n < 4 || i > n - 4 {
        return None;
    }
    let mut j = i + 4;
    let ghost tail = c@.subrange((i + 4) as int, n as int);
    while j < n && is_space_char(c[j])
        invariant
            i + 4 <= j <= n,
            n == c@.len(),
            trim_start(tail) == trim_start(c@.subrange(j as int, n as int)),
        decreases n - j,
    {
        assert(c@.subrange(j as int, n as int).drop_first() =~= c@.subrange(j + 1, n as int));
        j = j + 1;
    }
    assert(j < n ==> !is_space(c@.subrange(j as int, n as int)[0]));
    assert(trim_start(c@.subrange(j as int, n as int)) == c@.subrange(j as int, n as int));
    let mut e = j;
    while e < n && (is_ascii_digit(c[e]) || c[e] == ':' || c[e] == '.')
        invariant
            j <= e <= n,
            n == c@.len(),
            stamp_len(c@.subrange(j as int, n as int)) == (e - j) + stamp_len(c@.subrange(e as int, n as int)),
        decreases n - e,
    {
        assert(c@.subrange(e as int, n as int).drop_first() =~= c@.subrange(e + 1, n as int));
        e = e + 1;
    }
    assert(e < n ==> !is_stamp_char(c@.subrange(e as int, n as int)[0]));
    let ghost rest = c@.subrange(j as int, n as int);
    assert(rest.subrange(0, stamp_len(rest)) =~= c@.subrange(j as int, e as int));
    let stamp = slice_string(c, j, e);
    parse_clock_timestamp(stamp.as_str())
}

/// Whether `token` is a move number such as `12.` or `12...`: digits, then
/// at least one dot and nothing but dots.
pub open spec fn is_move_number(token: Seq<char>) -> bool {
    exists|k: int| #![trigger token.subrange(0, k)]
        0 < k < token.len() && all_digits(token.subrange(0, k))
            && forall|j: int| k <= j < token.len() ==> token[j] == '.'
}

pub fn is_move_number_chars(t: &Vec<char>) -> (b: bool)
    ensures
        b == is_move_number(t@),
{
    let n = t.len();
    let mut k: usize = 0;
    while k < n && is_ascii_digit(t[k])
        invariant
            k <= n,
            n == t@.len(),
            forall|j: int| 0 <= j < k ==> is_digit(#[trigger] t@[j]),
        decreases n - k,
    {
        k = k + 1;
    }
    if k == 0 || k == n {
        proof {
            if is_move_number(t@) {
                let w = choose|w: int| #![trigger t@.subrange(0, w)]
                    0 < w < t@.len() && all_digits(t@.subrange(0, w))
                        && forall|j: int| w <= j < t@.len() ==> t@[j] == '.';
                if k == 0 {
                    assert(is_digit(t@.subrange(0, w)[0]));
                } else {
                    assert(t@[w] == '.');
                    assert(is_digit(t@[w]));
                }
            }
        }
        return false;
    }
    let mut j = k;
    while j < n
        invariant
            0 < k <= j <= n,
            n == t@.len(),
            !is_digit(t@[k as int]),
            forall|i: int| 0 <= i < k ==> is_digit(#[trigger] t@[i]),
            forall|i: int| k <= i < j ==> t@[i] == '.',
        decreases n - j,
    {
        if t[j] != '.' {
            proof {
                if is_move_number(t@) {
                    let w = choose|w: int| #![trigger t@.subrange(0, w)]
                        0 < w < t@.len() && all_digits(t@.subrange(0, w))
                            && forall|i: int| w <= i < t@.len() ==> t@[i] == '.';
                    if w <= j {
                        assert(t@[j as int] == '.');
                    } else {
                        assert(is_digit(t@.subrange(0, w)[k as int]));
                    }
                }
            }
            return false;
        }
        j = j + 1;
    }
    assert(all_digits(t@.subrange(0, k as int)));
    true
}

/// Whether `token` is a move number such as `12.` or `12...`.
pub fn is_move_number_token(token: &str) -> (b: bool)
    ensures
        b == is_move_number(token@),
{
    let t = chars_of(token);
    is_move_number_chars(&t)
}

/// Whether `token` is a game result: `1-0`, `0-1`, `1/2-1/2` or `*`.
pub open spec fn is_result(token: Seq<char>) -> bool {
    token == seq!['1', '-', '0'] || token == seq!['0', '-', '1']
        || token == seq!['1', '/', '2', '-', '1', '/', '2'] || token == seq!['*']
}

pub fn is_result_chars(t: &Vec<char>) -> (b: bool)
    ensures
        b == is_result(t@),
{
    let n = t.len();
    let b = (n == 3 && t[0] == '1' && t[1] == '-' && t[2] == '0')
        || (n == 3 && t[0] == '0' && t[1] == '-' && t[2] == '1')
        || (n == 7 && t[0] == '1' && t[1] == '/' && t[2] == '2' && t[3] == '-' && t[4] == '1' && t[5] == '/' && t[6] == '2')
        || (n == 1 && t[0] == '*');
    proof {
        if t@ == seq!['1', '-', '0'] { assert(t@[0] == '1' && t@[1] == '-' && t@[2] == '0'); }
        if t@ == seq!['0', '-', '1'] { assert(t@[0] == '0' && t@[1] == '-' && t@[2] == '1'); }
        if t@ == seq!['1', '/', '2', '-', '1', '/', '2'] { assert(t@[3] == '-'); }
        if t@ == seq!['*'] { assert(t@[0] == '*'); }
    }
    assert(b ==> t@ =~= seq!['1', '-', '0'] || t@ =~= seq!['0', '-', '1']
        || t@ =~= seq!['1', '/', '2', '-', '1', '/', '2'] || t@ =~= seq!['*']);
    b
}

/// Whether `token` is a game result: `1-0`, `0-1`, `1/2-1/2` or `*`.
pub fn is_result_token(token: &str) -> (b: bool)
    ensures
        b == is_result(token@),
{
    let t = chars_of(token);
    is_result_chars(&t)
}

proof fn lemma_digits_parse(d: Seq<char>, v: nat)
    requires
        d.len() >= 1,
        all_digits(d),
        digits_value(d) == v,
        v <= i64::MAX,
    ensures
        parse_i64(d) == Some(v as i64),
        forall|i: int| 0 <= i < d.len() ==> d[i] != ':',
{
    assert(is_digit(d[0]));
    assert forall|i: int| 0 <= i < d.len() implies d[i] != ':' by {
        assert(is_digit(d[i]));
    }
}

proof fn lemma_seconds_parse(d: Seq<char>, v: nat)
    requires
        d.len() >= 1,
        all_digits(d),
        digits_value(d) == v,
    ensures
        seconds_ms(d) == Some((v * 1000) as int),
{
    assert(is_digit(d[0]));
    lemma_dot_index(d);
    if dot_index(d) < d.len() {
        assert(is_digit(d[dot_index(d)]));
    }
    assert(d.subrange(0, d.len() as int) =~= d);
    assert(fraction_ms(Seq::<char>::empty()) == 0);
}

/// A clock reading written as an `H:MM:SS` stamp reads back as the whole
/// seconds it shows: the reading rounded down to the second, a negative
/// reading being written (and so read back) as zero.
pub proof fn timestamp_reads_back(ms: i64)
    ensures
        timestamp_ms(timestamp_text(ms as int)) == Some((if ms < 0 { 0 } else { (ms / 1000) * 1000 }) as i64),
{
    let m: int = if ms < 0 { 0 } else { ms as int };
    let total = m / 1000;
    let h = total / 3600;
    let mm = (total % 3600) / 60;
    let ss = total % 60;
    assert(0 <= total);
    assert(0 <= h && 0 <= mm < 60 && 0 <= ss < 60) by (nonlinear_arith)
        requires
            total >= 0,
            h == total / 3600,
            mm == (total % 3600) / 60,
            ss == total % 60,
    ;
    lemma_nat_text_reads_back(h as nat);
    lemma_pad2_reads_back(mm as nat);
    lemma_pad2_reads_back(ss as nat);
    let a = nat_text(h as nat);
    let b = pad2_text(mm as nat);
    let c = pad2_text(ss as nat);
    assert(h <= i64::MAX) by (nonlinear_arith)
        requires
            0 <= m <= i64::MAX,
            total == m / 1000,
            h == total / 3600,
    ;
    lemma_digits_parse(a, h as nat);
    lemma_digits_parse(b, mm as nat);
    lemma_seconds_parse(c, ss as nat);
    assert forall|i: int| 0 <= i < c.len() implies c[i] != ':' by {
        assert(is_digit(c[i]));
    }
    let text = a + seq![':'] + b + seq![':'] + c;
    assert(timestamp_text(ms as int) =~= text);
    lemma_fields_append(Seq::<char>::empty(), a, ':');
    assert(Seq::<char>::empty() + a =~= a);
    assert(fields(a, ':') =~= seq![a]);
    let a1 = a + seq![':'];
    assert(a1.drop_last() =~= a);
    assert(fields(a1, ':') =~= seq![a, Seq::<char>::empty()]);
    lemma_fields_append(a1, b, ':');
    let ab = a1 + b;
    assert(fields(ab, ':') =~= seq![a, b]);
    let ab1 = ab + seq![':'];
    assert(ab1.drop_last() =~= ab);
    assert(fields(ab1, ':') =~= seq![a, b, Seq::<char>::empty()]);
    lemma_fields_append(ab1, c, ':');
    assert(ab1 + c =~= text);
    assert(fields(text, ':') =~= seq![a, b, c]);
    assert(h * 3_600_000 + mm * 60_000 + ss * 1000 == total * 1000) by (nonlinear_arith)
        requires
            total >= 0,
            h == total / 3600,
            mm == (total % 3600) / 60,
            ss == total % 60,
    ;
    assert(total * 1000 <= m) by (nonlinear_arith)
        requires
            m >= 0,
            total == m / 1000,
    ;
}

} // verus!
