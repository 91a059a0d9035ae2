//! The probe's exact model of an unsigned decimal numeral, used for the
//! uptime reading: an integer part and the run of digits after the decimal
//! point, kept exactly as the source text gave them.

use vstd::prelude::*;

use crate::text::{
    all_digits, all_digits_in, digit_byte, digits_value, is_digit, parse_u64_digits,
};

verus! {

/// An unsigned decimal numeral: `int_part` whole units plus the digits
/// after the decimal point, most significant first, as digit values
/// (`0..=9`). `12345.67` is held as `int_part == 12345`,
/// `frac_digits == [6, 7]`.
#[derive(Debug, PartialEq, Eq)]
pub struct Decimal {
    pub int_part: u64,
    pub frac_digits: Vec<u8>,
}

/// `10^n`.
pub open spec fn pow10(n: nat) -> nat
    decreases n,
{
    if n == 0 {
        1
    } else {
        10 * pow10((n - 1) as nat)
    }
}

/// The number denoted by a run of digit values (`0..=9`), most significant
/// first. An empty run denotes zero.
pub open spec fn digit_values_value(s: Seq<u8>) -> nat
    decreases s.len(),
{
    if s.len() == 0 {
        0
    } else {
        digit_values_value(s.drop_last()) * 10 + s.last() as nat
    }
}

impl Decimal {
    /// Every stored fractional digit is a digit value.
    pub open spec fn wf(self) -> bool {
        forall|i: int| 0 <= i < self.frac_digits@.len() ==> self.frac_digits@[i] <= 9
    }

    /// The numeral's value, scaled by `10^(number of fractional digits)`
    /// so that it is exact: `12345.67` scales to `1234567`.
    pub open spec fn scaled_value(self) -> nat {
        self.int_part as nat * pow10(self.frac_digits@.len()) + digit_values_value(
            self.frac_digits@,
        )
    }
}

/// `t` is an unsigned decimal numeral whose decimal point, if there is
/// one, stands at `k`; `k == t.len()` means there is none. At least one
/// digit is present on one side of the point.
pub open spec fn decimal_shape(t: Seq<u8>, k: int) -> bool {
    &&& 0 <= k <= t.len()
    &&& t.len() > 0
    &&& (k > 0 || k + 1 < t.len())
    &&& all_digits(t.subrange(0, k))
    &&& (k < t.len() ==> t[k] == 46 && all_digits(t.subrange(k + 1, t.len() as int)))
}

/// `t` is a well-formed unsigned decimal numeral.
pub open spec fn valid_decimal(t: Seq<u8>) -> bool {
    exists|k: int| decimal_shape(t, k)
}

/// The digit values of the fractional part of `t`, given its decimal
/// point's position.
pub open spec fn frac_digit_values(t: Seq<u8>, k: int) -> Seq<u8> {
    if k >= t.len() {
        Seq::empty()
    } else {
        t.subrange(k + 1, t.len() as int).map_values(|b: u8| (b - 48) as u8)
    }
}

/// `d` holds exactly the number that the numeral `t`, with its decimal
/// point at `k`, denotes.
pub open spec fn decimal_of(t: Seq<u8>, k: int, d: Decimal) -> bool {
    &&& decimal_shape(t, k)
    &&& d.int_part as nat == digits_value(t.subrange(0, k))
    &&& d.frac_digits@ == frac_digit_values(t, k)
}

/// The integer part of every reading of `t` as a numeral fits in a `u64`.
pub open spec fn decimal_fits(t: Seq<u8>) -> bool {
    forall|k: int| decimal_shape(t, k) ==> digits_value(t.subrange(0, k)) <= u64::MAX
}

/// A numeral has only one possible decimal-point position.
pub proof fn lemma_decimal_shape_unique(t: Seq<u8>, k1: int, k2: int)
    requires
        decimal_shape(t, k1),
        decimal_shape(t, k2),
    ensures
        k1 == k2,
{
    if k1 < k2 {
        assert(t.subrange(0, k2)[k1] == t[k1]);
        assert(is_digit(t[k1]));
        assert(t[k1] == 46);
    }
    if k2 < k1 {
        assert(t.subrange(0, k1)[k2] == t[k2]);
        assert(is_digit(t[k2]));
        assert(t[k2] == 46);
    }
}

/// Two decimals read from the same numeral agree.
pub proof fn lemma_decimal_of_unique(t: Seq<u8>, k1: int, k2: int, d1: Decimal, d2: Decimal)
    requires
        decimal_of(t, k1, d1),
        decimal_of(t, k2, d2),
    ensures
        d1.int_part == d2.int_part,
        d1.frac_digits@ == d2.frac_digits@,
{
    lemma_decimal_shape_unique(t, k1, k2);
}

/// Subranges of a subrange of `s` are subranges of `s`.
proof fn lemma_subrange_of_subrange(s: Seq<u8>, a: int, b: int, x: int, y: int)
    requires
        0 <= a <= b <= s.len(),
        0 <= x <= y <= b - a,
    ensures
        s.subrange(a, b).subrange(x, y) == s.subrange(a + x, a + y),
{
    assert(s.subrange(a, b).subrange(x, y) =~= s.subrange(a + x, a + y));
}

/// Parse `s[a..b)` as an unsigned decimal numeral. `None` when the range
/// is not a well-formed numeral or its integer part overflows a `u64`.
pub fn parse_decimal_range(s: &[u8], a: usize, b: usize) -> (r: Option<Decimal>)
    requires
        a <= b <= s@.len(),
    ensures
        ({
            let t = s@.subrange(a as int, b as int);
            match r {
                Some(d) => d.wf() && exists|k: int| decimal_of(t, k, d),
                None => !valid_decimal(t) || !decimal_fits(t),
            }
        }),
{
    let ghost t = s@.subrange(a as int, b as int);
    if a == b {
        assert(forall|k: int| !decimal_shape(t, k));
        return None;
    }
    // Find the decimal point, checking digits on the way.
    let mut i: usize = a;
    while i < b && digit_byte(s[i])
        invariant
            a <= i <= b <= s@.len(),
            forall|j: int| a <= j < i ==> is_digit(s@[j]),
        decreases b - i,
    {
        i = i + 1;
    }
    if i < b && s[i] != 46 {
        // A byte that is neither a digit nor the decimal point: no reading
        // of the range is a numeral.
        proof {
            let w = i - a;
            assert(t[w] == s@[i as int]);
            assert forall|k: int| !decimal_shape(t, k) by {
                if decimal_shape(t, k) {
                    if w < k {
                        assert(t.subrange(0, k)[w] == t[w]);
                        assert(is_digit(t[w]));
                    } else if w == k {
                        assert(t[k] == 46);
                    } else {
                        assert(t.subrange(k + 1, t.len() as int)[w - k - 1] == t[w]);
                        assert(is_digit(t[w]));
                    }
                }
            }
        }
        return None;
    }
    if i == b {
        // Digits throughout: a whole number.
        proof {
            assert(all_digits(t)) by {
                assert(forall|x: int| 0 <= x < t.len() ==> t[x] == s@[a + x]);
            }
            lemma_subrange_of_subrange(s@, a as int, b as int, 0, (b - a) as int);
            assert(t.subrange(0, (b - a) as int) =~= t);
        }
        match parse_u64_digits(s, a, b) {
            Some(v) => {
                let d = Decimal { int_part: v, frac_digits: Vec::new() };
                proof {
                    assert(decimal_shape(t, t.len() as int));
                    assert(frac_digit_values(t, t.len() as int) =~= d.frac_digits@);
                    assert(decimal_of(t, t.len() as int, d));
                }
                return Some(d);
            },
            None => {
                proof {
                    assert(decimal_shape(t, t.len() as int));
                    assert(!decimal_fits(t));
                }
                return None;
            },
        }
    }
    // The decimal point stands at i; every byte of [a, i) is a digit.
    let ghost kt = i - a;
    if a == i && i + 1 == b {
        // A lone decimal point is not a numeral.
        proof {
            assert(t.len() == 1 && t[0] == 46);
            assert forall|k: int| !decimal_shape(t, k) by {
                if decimal_shape(t, k) {
                    if k == 0 {
                        assert(k > 0 || k + 1 < t.len());
                    } else {
                        assert(t.subrange(0, k)[0] == t[0]);
                        assert(is_digit(t[0]));
                    }
                }
            }
        }
        return None;
    }
    // The fractional part must be digits throughout.
    if !all_digits_in(s, i + 1, b) {
        proof {
            let w = choose|x: int|
                0 <= x < s@.subrange(i + 1, b as int).len() && !is_digit(
                    #[trigger] s@.subrange(i + 1, b as int)[x],
                );
            assert(!is_digit(s@[i + 1 + w]));
            assert(t[kt] == s@[i as int]);
            assert forall|k: int| !decimal_shape(t, k) by {
                if decimal_shape(t, k) {
                    lemma_shape_point_is_first(t, k, kt);
                    assert(t.subrange(k + 1, t.len() as int)[kt + 1 + w - k - 1] == t[kt + 1 + w]);
                    assert(is_digit(t[kt + 1 + w]));
                    assert(t[kt + 1 + w] == s@[i + 1 + w]);
                }
            }
        }
        return None;
    }
    proof {
        lemma_subrange_of_subrange(s@, a as int, b as int, 0, kt);
        assert(all_digits(t.subrange(0, kt))) by {
            assert(forall|x: int| 0 <= x < kt ==> t.subrange(0, kt)[x] == s@[a + x]);
        }
        lemma_subrange_of_subrange(s@, a as int, b as int, kt + 1, (b - a) as int);
        assert(t[kt] == s@[i as int]);
        assert(decimal_shape(t, kt));
    }
    match parse_u64_digits(s, a, i) {
        None => {
            proof {
                assert(t.subrange(0, kt) =~= s@.subrange(a as int, i as int));
                assert(!decimal_fits(t));
            }
            None
        },
        Some(v) => {
            proof {
                assert forall|x: int| i + 1 <= x < b implies is_digit(s@[x]) by {
                    assert(s@.subrange(i + 1, b as int)[x - i - 1] == s@[x]);
                }
            }
            let mut frac: Vec<u8> = Vec::new();
            let mut j: usize = i + 1;
            while j < b
                invariant
                    i + 1 <= j <= b <= s@.len(),
                    a <= i < b,
                    forall|x: int| i + 1 <= x < b ==> is_digit(s@[x]),
                    frac@ == s@.subrange(i + 1, j as int).map_values(|c: u8| (c - 48) as u8),
                decreases b - j,
            {
                assert(is_digit(s@[j as int]));
                let g: u8 = s[j] - 48;
                frac.push(g);
                proof {
                    let prev = s@.subrange(i + 1, j as int);
                    let cur = s@.subrange(i + 1, j + 1);
                    assert(cur =~= prev.push(s@[j as int]));
                    assert(cur.map_values(|c: u8| (c - 48) as u8) =~= prev.map_values(
                        |c: u8| (c - 48) as u8,
                    ).push(g));
                }
                j = j + 1;
            }
            let d = Decimal { int_part: v, frac_digits: frac };
            proof {
                assert(t.subrange(0, kt) =~= s@.subrange(a as int, i as int));
                assert(t.subrange(kt + 1, t.len() as int) =~= s@.subrange(i + 1, b as int));
                assert(d.frac_digits@ =~= frac_digit_values(t, kt));
                assert(decimal_of(t, kt, d));
                assert(d.wf()) by {
                    assert(forall|x: int|
                        0 <= x < d.frac_digits@.len() ==> is_digit(s@.subrange(i + 1, b as int)[x])
                            && d.frac_digits@[x] == (s@.subrange(i + 1, b as int)[x] - 48) as u8);
                }
            }
            Some(d)
        },
    }
}

/// In a numeral that contains a non-digit byte, the decimal point stands
/// exactly there.
proof fn lemma_shape_point_is_first(t: Seq<u8>, k: int, w: int)
    requires
        decimal_shape(t, k),
        0 <= w < t.len(),
        !is_digit(t[w]),
    ensures
        k == w,
{
    if k < w {
        assert(t.subrange(k + 1, t.len() as int)[w - k - 1] == t[w]);
        assert(is_digit(t[w]));
    }
    if w < k {
        assert(t.subrange(0, k)[w] == t[w]);
        assert(is_digit(t[w]));
    }
}

} // verus!
