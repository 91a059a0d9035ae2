//! Byte-level text model shared by the probe's parsers: whitespace and
//! digit classification, whitespace-separated tokens, line boundaries, and
//! the value of a run of decimal digits.

use vstd::prelude::*;

verus! {

/// ASCII whitespace: tab, line feed, vertical tab, form feed, carriage
/// return, space.
pub open spec fn is_ws(b: u8) -> bool {
    b == 9 || b == 10 || b == 11 || b == 12 || b == 13 || b == 32
}

/// ASCII decimal digit.
pub open spec fn is_digit(b: u8) -> bool {
    48 <= b && b <= 57
}

/// Numeric value of an ASCII decimal digit.
pub open spec fn digit_val(b: u8) -> nat
    recommends
        is_digit(b),
{
    (b - 48) as nat
}

/// Every byte of `s` is an ASCII decimal digit.
pub open spec fn all_digits(s: Seq<u8>) -> bool {
    forall|i: int| 0 <= i < s.len() ==> is_digit(s[i])
}

/// The number denoted by a run of ASCII decimal digits, most significant
/// digit first. An empty run denotes zero.
pub open spec fn digits_value(s: Seq<u8>) -> nat
    recommends
        all_digits(s),
    decreases s.len(),
{
    if s.len() == 0 {
        0
    } else {
        digits_value(s.drop_last()) * 10 + digit_val(s.last())
    }
}

/// Within `s`, the range `[a, b)` is the first whitespace-separated token
/// of the window `[lo, hi)`.
pub open spec fn token_in(s: Seq<u8>, lo: int, hi: int, a: int, b: int) -> bool {
    &&& 0 <= lo <= a < b <= hi <= s.len()
    &&& forall|j: int| lo <= j < a ==> is_ws(s[j])
    &&& forall|j: int| a <= j < b ==> !is_ws(s[j])
    &&& (b == hi || is_ws(s[b]))
}

/// The window `[lo, hi)` of `s` holds no token: it is whitespace throughout.
pub open spec fn no_token_in(s: Seq<u8>, lo: int, hi: int) -> bool {
    forall|j: int| lo <= j < hi ==> is_ws(s[j])
}

/// Executable mirror of `is_ws`.
pub fn ws_byte(b: u8) -> (r: bool)
    ensures
        r == is_ws(b),
{
    b == 9 || b == 10 || b == 11 || b == 12 || b == 13 || b == 32
}

/// Executable mirror of `is_digit`.
pub fn digit_byte(b: u8) -> (r: bool)
    ensures
        r == is_digit(b),
{
    48 <= b && b <= 57
}

/// First whitespace-separated token of the window `[lo, hi)` of `s`, as a
/// half-open byte range, or `None` when the window is all whitespace.
pub fn first_token_in(s: &[u8], lo: usize, hi: usize) -> (r: Option<(usize, usize)>)
    requires
        lo <= hi <= s@.len(),
    ensures
        match r {
            Some(t) => token_in(s@, lo as int, hi as int, t.0 as int, t.1 as int),
            None => no_token_in(s@, lo as int, hi as int),
        },
{
    let mut a: usize = lo;
    while a < hi && ws_byte(s[a])
        invariant
            lo <= a <= hi <= s@.len(),
            forall|j: int| lo <= j < a ==> is_ws(s@[j]),
        decreases hi - a,
    {
        a = a + 1;
    }
    if a == hi {
        return None;
    }
    let mut b: usize = a + 1;
    while b < hi && !ws_byte(s[b])
        invariant
            lo <= a < b <= hi <= s@.len(),
            forall|j: int| a <= j < b ==> !is_ws(s@[j]),
        decreases hi - b,
    {
        b = b + 1;
    }
    Some((a, b))
}

/// The first token of a window is unique.
pub proof fn lemma_token_in_unique(s: Seq<u8>, lo: int, hi: int, a1: int, b1: int, a2: int, b2: int)
    requires
        token_in(s, lo, hi, a1, b1),
        token_in(s, lo, hi, a2, b2),
    ensures
        a1 == a2,
        b1 == b2,
{
    assert(a1 == a2) by {
        if a1 < a2 {
            assert(is_ws(s[a1]));
            assert(!is_ws(s[a1]));
        }
        if a2 < a1 {
            assert(is_ws(s[a2]));
            assert(!is_ws(s[a2]));
        }
    }
    assert(b1 == b2) by {
        if b1 < b2 {
            assert(!is_ws(s[b1]));
            assert(is_ws(s[b1]));
        }
        if b2 < b1 {
            assert(!is_ws(s[b2]));
            assert(is_ws(s[b2]));
        }
    }
}

/// `e` is where the line that begins at `p` ends: the first newline at or
/// after `p`, or the end of `s`.
pub open spec fn line_end_at(s: Seq<u8>, p: int, e: int) -> bool {
    &&& 0 <= p <= e <= s.len()
    &&& (e == s.len() || s[e] == 10)
    &&& forall|j: int| p <= j < e ==> s[j] != 10
}

/// A line's end is unique.
pub proof fn lemma_line_end_unique(s: Seq<u8>, p: int, e1: int, e2: int)
    requires
        line_end_at(s, p, e1),
        line_end_at(s, p, e2),
    ensures
        e1 == e2,
{
    if e1 < e2 {
        assert(s[e1] != 10);
        assert(s[e1] == 10);
    }
    if e2 < e1 {
        assert(s[e2] != 10);
        assert(s[e2] == 10);
    }
}

/// Position of the first newline at or after `from`, or the length of `s`.
pub fn find_line_end(s: &[u8], from: usize) -> (e: usize)
    requires
        from <= s@.len(),
    ensures
        line_end_at(s@, from as int, e as int),
{
    let mut i: usize = from;
    while i < s.len() && s[i] != 10
        invariant
            from <= i <= s@.len(),
            forall|j: int| from <= j < i ==> s@[j] != 10,
        decreases s@.len() - i,
    {
        i = i + 1;
    }
    i
}

/// Whether every byte of `s[a..b)` is an ASCII decimal digit.
pub fn all_digits_in(s: &[u8], a: usize, b: usize) -> (r: bool)
    requires
        a <= b <= s@.len(),
    ensures
        r == all_digits(s@.subrange(a as int, b as int)),
{
    let ghost t = s@.subrange(a as int, b as int);
    let mut i: usize = a;
    while i < b && digit_byte(s[i])
        invariant
            a <= i <= b <= s@.len(),
            forall|j: int| a <= j < i ==> is_digit(s@[j]),
        decreases b - i,
    {
        i = i + 1;
    }
    if i == b {
        assert(all_digits(t)) by {
            assert(forall|x: int| 0 <= x < t.len() ==> t[x] == s@[a + x] && is_digit(s@[a + x]));
        }
        true
    } else {
        assert(!all_digits(t)) by {
            assert(t[i - a] == s@[i as int]);
            assert(!is_digit(t[i - a]));
        }
        false
    }
}

/// Extending a run of digits on the right can only grow its value.
pub proof fn lemma_digits_value_prefix(t: Seq<u8>, i: int)
    requires
        0 <= i <= t.len(),
        all_digits(t),
    ensures
        digits_value(t) >= digits_value(t.subrange(0, i)),
    decreases t.len(),
{
    if i == t.len() {
        assert(t.subrange(0, i) =~= t);
    } else {
        let u = t.drop_last();
        assert(all_digits(u));
        lemma_digits_value_prefix(u, i);
        assert(u.subrange(0, i) =~= t.subrange(0, i));
    }
}

/// Value of the ASCII digit run `s[a..b)`, when it fits in a `u64`.
pub fn parse_u64_digits(s: &[u8], a: usize, b: usize) -> (r: Option<u64>)
    requires
        a <= b <= s@.len(),
        all_digits(s@.subrange(a as int, b as int)),
    ensures
        match r {
            Some(v) => v as nat == digits_value(s@.subrange(a as int, b as int)),
            None => digits_value(s@.subrange(a as int, b as int)) > u64::MAX,
        },
{
    let ghost t = s@.subrange(a as int, b as int);
    let mut v: u64 = 0;
    let mut i: usize = a;
    while i < b
        invariant
            a <= i <= b <= s@.len(),
            t == s@.subrange(a as int, b as int),
            all_digits(t),
            v as nat == digits_value(s@.subrange(a as int, i as int)),
        decreases b - i,
    {
        assert(t[i - a] == s@[i as int]);
        assert(is_digit(s@[i as int]));
        let d: u8 = s[i] - 48;
        let ghost q: u64 = ((u64::MAX - (d as u64)) / 10) as u64;
        proof {
            let pfx = s@.subrange(a as int, i as int);
            let nxt = s@.subrange(a as int, i + 1);
            assert(nxt.drop_last() =~= pfx);
            assert(nxt.last() == s@[i as int]);
            assert(digits_value(nxt) == digits_value(pfx) * 10 + digit_val(s@[i as int]));
            // Euclidean facts about the overflow threshold.
            assert(q * 10 <= u64::MAX - (d as u64) && (q + 1) * 10 > u64::MAX - (d as u64))
                by (nonlinear_arith)
            requires
                q == (u64::MAX - (d as u64)) / 10,
            ;
        }
        if v > (u64::MAX - (d as u64)) / 10 {
            proof {
                let nxt = s@.subrange(a as int, i + 1);
                assert(v * 10 >= (q + 1) * 10) by (nonlinear_arith)
                    requires
                        v >= q + 1,
                ;
                assert(digits_value(nxt) > u64::MAX);
                assert(t.subrange(0, i + 1 - a) =~= nxt);
                lemma_digits_value_prefix(t, i + 1 - a);
            }
            return None;
        }
        proof {
            assert(v * 10 <= q * 10) by (nonlinear_arith)
                requires
                    v <= q,
            ;
            assert(v * 10 + (d as u64) <= u64::MAX);
        }
        v = v * 10 + (d as u64);
        i = i + 1;
    }
    assert(s@.subrange(a as int, i as int) =~= t);
    Some(v)
}

} // verus!
