//! Decimal rendering and parsing of integers, and conversions between
//! strings and character vectors.

use vstd::prelude::*;

verus! {

/// The ASCII digit character for `d` (0..=9).
pub open spec fn digit_char(d: int) -> char {
    (48 + d) as char
}

pub open spec fn is_digit(c: char) -> bool {
    '0' <= c && c <= '9'
}

pub open spec fn digit_value(c: char) -> int {
    (c as int) - 48
}

/// Decimal representation of a natural number, without leading zeros.
pub open spec fn nat_text(n: nat) -> Seq<char>
    decreases n,
{
    if n < 10 {
        seq![digit_char(n as int)]
    } else {
        nat_text(n / 10).push(digit_char((n % 10) as int))
    }
}

/// Decimal representation of an integer, with a leading `-` when negative.
pub open spec fn int_text(i: int) -> Seq<char> {
    if i < 0 {
        seq!['-'] + nat_text((-i) as nat)
    } else {
        nat_text(i as nat)
    }
}

/// Decimal representation padded with zeros to at least two characters.
pub open spec fn pad2_text(n: nat) -> Seq<char> {
    if n < 10 {
        seq!['0'] + nat_text(n)
    } else {
        nat_text(n)
    }
}

/// Value of a non-empty string of ASCII digits.
pub open spec fn digits_value(s: Seq<char>) -> nat
    decreases s.len(),
{
    if s.len() == 0 {
        0
    } else {
        (digits_value(s.drop_last()) * 10 + digit_value(s.last())) as nat
    }
}

pub open spec fn all_digits(s: Seq<char>) -> bool {
    forall|i: int| 0 <= i < s.len() ==> is_digit(#[trigger] s[i])
}

/// The value that `str::parse::<u32>` (and the other unsigned integer
/// parsers) reads from `s` before any range check: an optional `+`
/// followed by at least one ASCII digit.
pub open spec fn unsigned_value(s: Seq<char>) -> Option<nat> {
    let body = if s.len() > 0 && s[0] == '+' { s.drop_first() } else { s };
    if body.len() > 0 && all_digits(body) {
        Some(digits_value(body))
    } else {
        None
    }
}

/// The value that the signed integer parsers read from `s` before any range
/// check: an optional `+` or `-` followed by at least one ASCII digit.
pub open spec fn signed_value(s: Seq<char>) -> Option<int> {
    if s.len() > 0 && s[0] == '-' {
        let body = s.drop_first();
        if body.len() > 0 && all_digits(body) {
            Some(-(digits_value(body) as int))
        } else {
            None
        }
    } else {
        match unsigned_value(s) {
            Some(v) => Some(v as int),
            None => None,
        }
    }
}

/// `str::parse::<u32>`.
pub open spec fn parse_u32(s: Seq<char>) -> Option<u32> {
    match unsigned_value(s) {
        Some(v) => if v <= u32::MAX { Some(v as u32) } else { None },
        None => None,
    }
}

/// `str::parse::<i32>`.
pub open spec fn parse_i32(s: Seq<char>) -> Option<i32> {
    match signed_value(s) {
        Some(v) => if i32::MIN <= v <= i32::MAX { Some(v as i32) } else { None },
        None => None,
    }
}

/// `str::parse::<i64>`.
pub open spec fn parse_i64(s: Seq<char>) -> Option<i64> {
    match signed_value(s) {
        Some(v) => if i64::MIN <= v <= i64::MAX { Some(v as i64) } else { None },
        None => None,
    }
}

pub proof fn lemma_digits_value_monotone(s: Seq<char>, k: int)
    requires
        0 <= k <= s.len(),
        all_digits(s),
    ensures
        digits_value(s.subrange(0, k)) <= digits_value(s),
    decreases s.len() - k,
{
    if k < s.len() {
        lemma_digits_value_monotone(s, k + 1);
        assert(s.subrange(0, k + 1).drop_last() =~= s.subrange(0, k));
        assert(is_digit(s[k]));
    } else {
        assert(s.subrange(0, k) =~= s);
    }
}

/// Appends the decimal digits of `n` to `out`.
pub fn push_nat(out: &mut Vec<char>, n: u64)
    ensures
        final(out)@ == old(out)@ + nat_text(n as nat),
    decreases n,
{
    if n < 10 {
        let c = ((n as u8) + 48u8) as char;
        out.push(c);
    } else {
        push_nat(out, n / 10);
        let c = (((n % 10) as u8) + 48u8) as char;
        out.push(c);
    }
}

/// Appends the decimal representation of `i` (with a `-` when negative).
pub fn push_int(out: &mut Vec<char>, i: i64)
    ensures
        final(out)@ == old(out)@ + int_text(i as int),
{
    if i < 0 {
        out.push('-');
        let wide: i128 = i as i128;
        let mag: u64 = (0i128 - wide) as u64;
        push_nat(out, mag);
        assert(final(out)@ =~= old(out)@ + int_text(i as int));
    } else {
        push_nat(out, i as u64);
    }
}

/// Appends `n` zero-padded to at least two digits.
pub fn push_pad2(out: &mut Vec<char>, n: u64)
    ensures
        final(out)@ == old(out)@ + pad2_text(n as nat),
{
    if n < 10 {
        out.push('0');
        push_nat(out, n);
        assert(final(out)@ =~= old(out)@ + pad2_text(n as nat));
    } else {
        push_nat(out, n);
    }
}

/// Appends every character of `s` to `out`.
pub fn push_str(out: &mut Vec<char>, s: &str)
    ensures
        final(out)@ == old(out)@ + s@,
{
    let n = s.unicode_len();
    let ghost start = out@;
    let mut i: usize = 0;
    while i < n
        invariant
            n == s@.len(),
            i <= n,
            out@ == start + s@.subrange(0, i as int),
        decreases n - i,
    {
        let c = s.get_char(i);
        out.push(c);
        i = i + 1;
        assert(out@ =~= start + s@.subrange(0, i as int));
    }
    assert(s@.subrange(0, n as int) =~= s@);
}

/// The characters of `s`.
pub fn chars_of(s: &str) -> (v: Vec<char>)
    ensures
        v@ == s@,
{
    let mut v: Vec<char> = Vec::new();
    push_str(&mut v, s);
    assert(v@ =~= s@);
    v
}

/// Builds a `String` from characters, through `FromIterator<&char>` of
/// `String`; the contract claims the string holds exactly those characters.
#[verifier::external_body]
pub fn string_of(v: &Vec<char>) -> (s: String)
    ensures
        s@ == v@,
{
    v.iter().collect::<String>()
}

/// What `format!("{:?}", s)` writes for a string: the quoted, escaped text.
pub uninterp spec fn debug_text(s: Seq<char>) -> Seq<char>;

/// The `Debug` rendering of `s`, through `format!("{:?}")`; the contract
/// names the result `debug_text`.
#[verifier::external_body]
pub fn debug_quoted(s: &str) -> (r: String)
    ensures
        r@ == debug_text(s@),
{
    format!("{:?}", s)
}

/// Appends the characters `from..to` of `src` to `out`.
pub fn push_range(out: &mut Vec<char>, src: &Vec<char>, from: usize, to: usize)
    requires
        from <= to <= src@.len(),
    ensures
        final(out)@ == old(out)@ + src@.subrange(from as int, to as int),
{
    let ghost start = out@;
    let mut i = from;
    while i < to
        invariant
            from <= i <= to,
            to <= src@.len(),
            out@ == start + src@.subrange(from as int, i as int),
        decreases to - i,
    {
        out.push(src[i]);
        i = i + 1;
        assert(out@ =~= start + src@.subrange(from as int, i as int));
    }
}

/// The string made of the characters `from..to` of `src`.
pub fn slice_string(src: &Vec<char>, from: usize, to: usize) -> (s: String)
    requires
        from <= to <= src@.len(),
    ensures
        s@ == src@.subrange(from as int, to as int),
{
    let mut v: Vec<char> = Vec::new();
    push_range(&mut v, src, from, to);
    assert(v@ =~= src@.subrange(from as int, to as int));
    string_of(&v)
}

pub fn is_ascii_digit(c: char) -> (b: bool)
    ensures
        b == is_digit(c),
{
    '0' <= c && c <= '9'
}

/// Reads the digits `from..to` of `src` as a number, stopping at `None`
/// once the value passes `limit`.
pub fn digits_upto(src: &Vec<char>, from: usize, to: usize, limit: u64) -> (r: Option<u64>)
    requires
        from <= to <= src@.len(),
        all_digits(src@.subrange(from as int, to as int)),
        limit <= u64::MAX / 16,
    ensures
        match r {
            Some(v) => v == digits_value(src@.subrange(from as int, to as int)) && v <= limit,
            None => digits_value(src@.subrange(from as int, to as int)) > limit,
        },
{
    let ghost s = src@.subrange(from as int, to as int);
    let mut acc: u64 = 0;
    let mut i = from;
    while i < to
        invariant
            from <= i <= to,
            to <= src@.len(),
            s == src@.subrange(from as int, to as int),
            all_digits(s),
            acc == digits_value(src@.subrange(from as int, i as int)),
            acc <= limit,
            limit <= u64::MAX / 16,
        decreases to - i,
    {
        assert(src@.subrange(from as int, i + 1).drop_last() =~= src@.subrange(from as int, i as int));
        assert(src@.subrange(from as int, i + 1).last() == src@[i as int]);
        assert(s[i - from] == src@[i as int]);
        assert(is_digit(s[i - from]));
        let d = (src[i] as u32 - 48) as u64;
        let next = acc * 10 + d;
        i = i + 1;
        if next > limit {
            proof {
                assert(s.subrange(0, i - from) =~= src@.subrange(from as int, i as int));
                lemma_digits_value_monotone(s, i - from);
            }
            return None;
        }
        acc = next;
    }
    assert(src@.subrange(from as int, i as int) =~= s);
    Some(acc)
}


/// The pieces of `s` between occurrences of `sep` (as `str::split`, so
/// empty pieces are kept and there is always at least one piece).
pub open spec fn fields(s: Seq<char>, sep: char) -> Seq<Seq<char>>
    decreases s.len(),
{
    if s.len() == 0 {
        seq![Seq::empty()]
    } else {
        let f = fields(s.drop_last(), sep);
        if s.last() == sep {
            f.push(Seq::empty())
        } else {
            f.update(f.len() - 1, f.last().push(s.last()))
        }
    }
}

pub proof fn lemma_fields_nonempty(s: Seq<char>, sep: char)
    ensures
        fields(s, sep).len() >= 1,
    decreases s.len(),
{
    if s.len() > 0 {
        lemma_fields_nonempty(s.drop_last(), sep);
    }
}

/// The `k`-th piece of `s` split on `sep`, empty when there are fewer.
pub open spec fn field(s: Seq<char>, sep: char, k: int) -> Seq<char> {
    if 0 <= k < fields(s, sep).len() {
        fields(s, sep)[k]
    } else {
        Seq::empty()
    }
}

/// The pieces of `s` split on `sep`.
pub fn split_on(s: &Vec<char>, sep: char) -> (r: Vec<Vec<char>>)
    ensures
        r@.len() == fields(s@, sep).len(),
        forall|i: int| 0 <= i < r@.len() ==> (#[trigger] r@[i])@ == fields(s@, sep)[i],
{
    let mut out: Vec<Vec<char>> = Vec::new();
    out.push(Vec::new());
    let mut i: usize = 0;
    assert(s@.subrange(0, 0) =~= Seq::<char>::empty());
    while i < s.len()
        invariant
            i <= s@.len(),
            out@.len() == fields(s@.subrange(0, i as int), sep).len(),
            out@.len() >= 1,
            forall|j: int| 0 <= j < out@.len() ==> (#[trigger] out@[j])@ == fields(s@.subrange(0, i as int), sep)[j],
        decreases s@.len() - i,
    {
        let ghost before = s@.subrange(0, i as int);
        assert(s@.subrange(0, i + 1).drop_last() =~= before);
        assert(s@.subrange(0, i + 1).last() == s@[i as int]);
        let c = s[i];
        if c == sep {
            out.push(Vec::new());
        } else {
            let last = out.len() - 1;
            let mut piece = out[last].clone();
            piece.push(c);
            out.set(last, piece);
        }
        i = i + 1;
        assert forall|j: int| 0 <= j < out@.len() implies (#[trigger] out@[j])@ == fields(s@.subrange(0, i as int), sep)[j] by {
        }
    }
    assert(s@.subrange(0, s@.len() as int) =~= s@);
    out
}

/// The `k`-th piece of `s` split on `sep`, empty when there are fewer.
pub fn field_at(s: &Vec<char>, sep: char, k: usize) -> (r: Vec<char>)
    ensures
        r@ == field(s@, sep, k as int),
{
    let parts = split_on(s, sep);
    if k < parts.len() {
        parts[k].clone()
    } else {
        Vec::new()
    }
}

/// `char::is_whitespace`: the Unicode White_Space characters.
pub open spec fn is_space(c: char) -> bool {
    ||| ('\t' <= c && c <= '\r')
    ||| c == ' '
    ||| c == '\u{85}'
    ||| c == '\u{A0}'
    ||| c == '\u{1680}'
    ||| ('\u{2000}' <= c && c <= '\u{200A}')
    ||| c == '\u{2028}'
    ||| c == '\u{2029}'
    ||| c == '\u{202F}'
    ||| c == '\u{205F}'
    ||| c == '\u{3000}'
}

pub fn is_space_char(c: char) -> (b: bool)
    ensures
        b == is_space(c),
{
    ('\t' <= c && c <= '\r') || c == ' ' || c == '\u{85}' || c == '\u{A0}' || c == '\u{1680}'
        || ('\u{2000}' <= c && c <= '\u{200A}') || c == '\u{2028}' || c == '\u{2029}'
        || c == '\u{202F}' || c == '\u{205F}' || c == '\u{3000}'
}

/// The maximal runs of non-whitespace characters of `s`, in order (as
/// `str::split_whitespace`).
pub open spec fn words(s: Seq<char>) -> Seq<Seq<char>>
    decreases s.len(),
{
    if s.len() == 0 {
        Seq::empty()
    } else {
        let p = s.drop_last();
        let w = words(p);
        let c = s.last();
        if is_space(c) {
            w
        } else if p.len() > 0 && !is_space(p.last()) {
            w.update(w.len() - 1, w.last().push(c))
        } else {
            w.push(seq![c])
        }
    }
}

pub proof fn lemma_words_last(s: Seq<char>)
    requires
        s.len() > 0,
        !is_space(s.last()),
    ensures
        words(s).len() > 0,
    decreases s.len(),
{
    let p = s.drop_last();
    if p.len() > 0 && !is_space(p.last()) {
        lemma_words_last(p);
    }
}

/// The whitespace-separated words of `s`.
pub fn split_words(s: &Vec<char>) -> (r: Vec<Vec<char>>)
    ensures
        r@.len() == words(s@).len(),
        forall|i: int| 0 <= i < r@.len() ==> (#[trigger] r@[i])@ == words(s@)[i],
{
    let mut out: Vec<Vec<char>> = Vec::new();
    let mut i: usize = 0;
    assert(s@.subrange(0, 0) =~= Seq::<char>::empty());
    while i < s.len()
        invariant
            i <= s@.len(),
            out@.len() == words(s@.subrange(0, i as int)).len(),
            forall|j: int| 0 <= j < out@.len() ==> (#[trigger] out@[j])@ == words(s@.subrange(0, i as int))[j],
        decreases s@.len() - i,
    {
        let ghost before = s@.subrange(0, i as int);
        assert(s@.subrange(0, i + 1).drop_last() =~= before);
        assert(s@.subrange(0, i + 1).last() == s@[i as int]);
        let c = s[i];
        if is_space_char(c) {
        } else if i > 0 && !is_space_char(s[i - 1]) {
            assert(before.last() == s@[i - 1]);
            proof { lemma_words_last(before); }
            let last = out.len() - 1;
            let mut piece = out[last].clone();
            piece.push(c);
            out.set(last, piece);
        } else {
            let mut piece: Vec<char> = Vec::new();
            piece.push(c);
            out.push(piece);
            assert(piece@ =~= seq![c]);
        }
        i = i + 1;
        assert forall|j: int| 0 <= j < out@.len() implies (#[trigger] out@[j])@ == words(s@.subrange(0, i as int))[j] by {
        }
    }
    assert(s@.subrange(0, s@.len() as int) =~= s@);
    out
}

/// The words of `ws` joined with single spaces.
pub open spec fn join_spaced(ws: Seq<Seq<char>>) -> Seq<char>
    decreases ws.len(),
{
    if ws.len() == 0 {
        Seq::empty()
    } else if ws.len() == 1 {
        ws[0]
    } else {
        join_spaced(ws.drop_last()) + seq![' '] + ws.last()
    }
}


/// Reads the digits `from..to` of `src` as a number; `None` once the value
/// passes `limit`.
pub fn read_digits(src: &Vec<char>, from: usize, to: usize, limit: u128) -> (r: Option<u128>)
    requires
        from <= to <= src@.len(),
        all_digits(src@.subrange(from as int, to as int)),
        limit <= 0x1_0000_0000_0000_0000_0000_0000u128,
    ensures
        match r {
            Some(v) => v == digits_value(src@.subrange(from as int, to as int)) && v <= limit,
            None => digits_value(src@.subrange(from as int, to as int)) > limit,
        },
{
    let ghost s = src@.subrange(from as int, to as int);
    let mut acc: u128 = 0;
    let mut i = from;
    while i < to
        invariant
            from <= i <= to,
            to <= src@.len(),
            s == src@.subrange(from as int, to as int),
            all_digits(s),
            acc == digits_value(src@.subrange(from as int, i as int)),
            acc <= limit,
            limit <= 0x1_0000_0000_0000_0000_0000_0000u128,
        decreases to - i,
    {
        assert(src@.subrange(from as int, i + 1).drop_last() =~= src@.subrange(from as int, i as int));
        assert(src@.subrange(from as int, i + 1).last() == src@[i as int]);
        assert(s[i - from] == src@[i as int]);
        assert(is_digit(s[i - from]));
        let d = (src[i] as u32 - 48) as u128;
        let next = acc * 10 + d;
        i = i + 1;
        if next > limit {
            proof {
                assert(s.subrange(0, i - from) =~= src@.subrange(from as int, i as int));
                lemma_digits_value_monotone(s, i - from);
            }
            return None;
        }
        acc = next;
    }
    assert(src@.subrange(from as int, i as int) =~= s);
    Some(acc)
}

/// Whether every character of `s` in `from..to` is an ASCII digit.
pub fn all_digits_in(s: &Vec<char>, from: usize, to: usize) -> (b: bool)
    requires
        from <= to <= s@.len(),
    ensures
        b == all_digits(s@.subrange(from as int, to as int)),
{
    let mut i = from;
    while i < to
        invariant
            from <= i <= to,
            to <= s@.len(),
            forall|j: int| from <= j < i ==> is_digit(#[trigger] s@[j]),
        decreases to - i,
    {
        if !is_ascii_digit(s[i]) {
            assert(!is_digit(s@.subrange(from as int, to as int)[i - from]));
            return false;
        }
        i = i + 1;
    }
    assert forall|j: int| 0 <= j < to - from implies is_digit(#[trigger] s@.subrange(from as int, to as int)[j]) by {
        assert(s@.subrange(from as int, to as int)[j] == s@[from + j]);
    }
    true
}

/// `str::parse::<i64>` of the characters `from..to` of `s`.
pub fn parse_i64_in(s: &Vec<char>, from: usize, to: usize) -> (r: Option<i64>)
    requires
        from <= to <= s@.len(),
    ensures
        r == parse_i64(s@.subrange(from as int, to as int)),
{
    let ghost w = s@.subrange(from as int, to as int);
    if from < to && s[from] == '-' {
        assert(w.drop_first() =~= s@.subrange(from + 1, to as int));
        if from + 1 < to && all_digits_in(s, from + 1, to) {
            match read_digits(s, from + 1, to, 0x8000_0000_0000_0000u128) {
                Some(v) => {
                    let neg: i128 = 0i128 - (v as i128);
                    Some(neg as i64)
                },
                None => None,
            }
        } else {
            None
        }
    } else {
        let start = if from < to && s[from] == '+' { from + 1 } else { from };
        assert(start > from ==> w.drop_first() =~= s@.subrange(start as int, to as int));
        assert(start == from ==> w =~= s@.subrange(start as int, to as int));
        if start < to && all_digits_in(s, start, to) {
            match read_digits(s, start, to, 0x7fff_ffff_ffff_ffffu128) {
                Some(v) => Some(v as i64),
                None => None,
            }
        } else {
            None
        }
    }
}

/// `str::parse::<u32>` of the characters `from..to` of `s`.
pub fn parse_u32_in(s: &Vec<char>, from: usize, to: usize) -> (r: Option<u32>)
    requires
        from <= to <= s@.len(),
    ensures
        r == parse_u32(s@.subrange(from as int, to as int)),
{
    let ghost w = s@.subrange(from as int, to as int);
    let start = if from < to && s[from] == '+' { from + 1 } else { from };
    assert(start > from ==> w.drop_first() =~= s@.subrange(start as int, to as int));
    assert(start == from ==> w =~= s@.subrange(start as int, to as int));
    if start < to && all_digits_in(s, start, to) {
        match read_digits(s, start, to, 0xffff_ffffu128) {
            Some(v) => Some(v as u32),
            None => None,
        }
    } else {
        None
    }
}

/// `str::parse::<i32>` of the characters `from..to` of `s`.
pub fn parse_i32_in(s: &Vec<char>, from: usize, to: usize) -> (r: Option<i32>)
    requires
        from <= to <= s@.len(),
    ensures
        r == parse_i32(s@.subrange(from as int, to as int)),
{
    let ghost w = s@.subrange(from as int, to as int);
    if from < to && s[from] == '-' {
        assert(w.drop_first() =~= s@.subrange(from + 1, to as int));
        if from + 1 < to && all_digits_in(s, from + 1, to) {
            match read_digits(s, from + 1, to, 0x8000_0000u128) {
                Some(v) => {
                    let neg: i128 = 0i128 - (v as i128);
                    Some(neg as i32)
                },
                None => None,
            }
        } else {
            None
        }
    } else {
        let start = if from < to && s[from] == '+' { from + 1 } else { from };
        assert(start > from ==> w.drop_first() =~= s@.subrange(start as int, to as int));
        assert(start == from ==> w =~= s@.subrange(start as int, to as int));
        if start < to && all_digits_in(s, start, to) {
            match read_digits(s, start, to, 0x7fff_ffffu128) {
                Some(v) => Some(v as i32),
                None => None,
            }
        } else {
            None
        }
    }
}

/// Whether the characters of `a` are those of `b`.
pub fn same_chars(a: &Vec<char>, b: &str) -> (r: bool)
    ensures
        r == (a@ == b@),
{
    let bv = chars_of(b);
    if a.len() != bv.len() {
        return false;
    }
    let mut i: usize = 0;
    while i < a.len()
        invariant
            a@.len() == bv@.len(),
            bv@ == b@,
            i <= a@.len(),
            a@.subrange(0, i as int) == bv@.subrange(0, i as int),
        decreases a@.len() - i,
    {
        if a[i] != bv[i] {
            return false;
        }
        assert(a@.subrange(0, i + 1) =~= a@.subrange(0, i as int).push(a@[i as int]));
        assert(bv@.subrange(0, i + 1) =~= bv@.subrange(0, i as int).push(bv@[i as int]));
        i = i + 1;
    }
    assert(a@ =~= a@.subrange(0, i as int));
    assert(bv@ =~= bv@.subrange(0, i as int));
    true
}

/// Whether `s` begins with the characters of `p`.
pub fn has_prefix(s: &Vec<char>, p: &str) -> (r: bool)
    ensures
        r == (p@.len() <= s@.len() && s@.subrange(0, p@.len() as int) == p@),
{
    let pv = chars_of(p);
    if pv.len() > s.len() {
        return false;
    }
    let mut i: usize = 0;
    while i < pv.len()
        invariant
            pv@ == p@,
            pv@.len() <= s@.len(),
            i <= pv@.len(),
            s@.subrange(0, i as int) == pv@.subrange(0, i as int),
        decreases pv@.len() - i,
    {
        if s[i] != pv[i] {
            assert(s@.subrange(0, pv@.len() as int)[i as int] != pv@[i as int]);
            return false;
        }
        assert(s@.subrange(0, i + 1) =~= s@.subrange(0, i as int).push(s@[i as int]));
        assert(pv@.subrange(0, i + 1) =~= pv@.subrange(0, i as int).push(pv@[i as int]));
        i = i + 1;
    }
    assert(pv@ =~= pv@.subrange(0, i as int));
    true
}

/// The lines of `s` (as `str::lines`): the pieces between `\n`s, without a
/// final empty piece, each stripped of one `\r` before its `\n`.
pub open spec fn lines(s: Seq<char>) -> Seq<Seq<char>> {
    let fs = fields(s, '\n');
    let n = if s.len() == 0 || s.last() == '\n' { fs.len() - 1 } else { fs.len() as int };
    Seq::new(
        n as nat,
        |i: int|
            if i < fs.len() - 1 && fs[i].len() > 0 && fs[i].last() == '\r' {
                fs[i].drop_last()
            } else {
                fs[i]
            },
    )
}

/// The lines of `s`.
pub fn lines_of(s: &Vec<char>) -> (r: Vec<Vec<char>>)
    ensures
        r@.len() == lines(s@).len(),
        forall|i: int| 0 <= i < r@.len() ==> (#[trigger] r@[i])@ == lines(s@)[i],
{
    let fs = split_on(s, '\n');
    proof { lemma_fields_nonempty(s@, '\n'); }
    let keep = if s.len() == 0 || s[s.len() - 1] == '\n' { fs.len() - 1 } else { fs.len() };
    let mut r: Vec<Vec<char>> = Vec::new();
    let mut i: usize = 0;
    while i < keep
        invariant
            keep <= fs@.len(),
            keep == lines(s@).len(),
            fs@.len() == fields(s@, '\n').len(),
            forall|j: int| 0 <= j < fs@.len() ==> (#[trigger] fs@[j])@ == fields(s@, '\n')[j],
            i <= keep,
            r@.len() == i,
            forall|j: int| 0 <= j < i ==> (#[trigger] r@[j])@ == lines(s@)[j],
        decreases keep - i,
    {
        let mut piece = fs[i].clone();
        if i + 1 < fs.len() && piece.len() > 0 && piece[piece.len() - 1] == '\r' {
            piece.pop();
        }
        r.push(piece);
        i = i + 1;
    }
    r
}

/// The decimal text of a number is all digits, starts with a digit and
/// reads back as the number.
pub proof fn lemma_nat_text_reads_back(n: nat)
    ensures
        nat_text(n).len() >= 1,
        all_digits(nat_text(n)),
        digits_value(nat_text(n)) == n,
    decreases n,
{
    if n < 10 {
        let t = nat_text(n);
        assert(t.drop_last() =~= Seq::<char>::empty());
        assert(digit_char(n as int) as int == 48 + n);
        assert(is_digit(digit_char(n as int)));
        assert(digits_value(Seq::<char>::empty()) == 0);
        assert(digits_value(t) == digits_value(t.drop_last()) * 10 + digit_value(t.last()));
    } else {
        lemma_nat_text_reads_back(n / 10);
        let t = nat_text(n);
        let u = nat_text(n / 10);
        assert(t.drop_last() =~= u);
        assert(digit_char((n % 10) as int) as int == 48 + n % 10);
        assert(is_digit(digit_char((n % 10) as int)));
        assert forall|i: int| 0 <= i < t.len() implies is_digit(#[trigger] t[i]) by {
            if i < u.len() {
                assert(t[i] == u[i]);
            }
        }
        assert(digits_value(t) == digits_value(u) * 10 + n % 10);
        assert(n == (n / 10) * 10 + n % 10);
    }
}

/// A number below 100 padded to two digits is all digits and reads back as
/// the number.
pub proof fn lemma_pad2_reads_back(n: nat)
    requires
        n < 100,
    ensures
        pad2_text(n).len() >= 1,
        all_digits(pad2_text(n)),
        digits_value(pad2_text(n)) == n,
{
    lemma_nat_text_reads_back(n);
    if n < 10 {
        let t = pad2_text(n);
        let d = nat_text(n);
        assert(d.len() == 1);
        assert(t =~= seq!['0', d[0]]);
        assert(t.drop_last() =~= seq!['0']);
        assert(seq!['0'].drop_last() =~= Seq::<char>::empty());
        assert(d.drop_last() =~= Seq::<char>::empty());
        assert(digits_value(Seq::<char>::empty()) == 0);
        assert(digits_value(d) == digits_value(d.drop_last()) * 10 + digit_value(d.last()));
        assert(digit_value(d[0]) == n);
        assert(digits_value(seq!['0']) == digits_value(seq!['0'].drop_last()) * 10 + digit_value('0'));
        assert(digits_value(t) == digits_value(t.drop_last()) * 10 + digit_value(t.last()));
        assert forall|i: int| 0 <= i < t.len() implies is_digit(#[trigger] t[i]) by {
            if i == 1 {
                assert(t[1] == d[0]);
            }
        }
    }
}

/// Splitting on `sep` after appending text without `sep` extends the last
/// piece.
pub proof fn lemma_fields_append(s: Seq<char>, t: Seq<char>, sep: char)
    requires
        forall|i: int| 0 <= i < t.len() ==> t[i] != sep,
    ensures
        fields(s + t, sep) == fields(s, sep).update(
            fields(s, sep).len() - 1,
            fields(s, sep)[fields(s, sep).len() - 1] + t,
        ),
    decreases t.len(),
{
    lemma_fields_nonempty(s, sep);
    let f = fields(s, sep);
    if t.len() == 0 {
        assert(s + t =~= s);
        assert(f[f.len() - 1] + t =~= f[f.len() - 1]);
        assert(f.update(f.len() - 1, f[f.len() - 1] + t) =~= f);
    } else {
        lemma_fields_append(s, t.drop_last(), sep);
        assert((s + t).drop_last() =~= s + t.drop_last());
        assert((s + t).last() == t.last());
        let g = fields(s + t.drop_last(), sep);
        assert(g.len() == f.len());
        assert(g[g.len() - 1] == f[f.len() - 1] + t.drop_last());
        assert((f[f.len() - 1] + t.drop_last()).push(t.last()) =~= f[f.len() - 1] + t);
        assert(fields(s + t, sep) =~= f.update(f.len() - 1, f[f.len() - 1] + t));
    }
}

} // verus!
