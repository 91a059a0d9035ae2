//! The probe's laws: each query's contract admits exactly one result for
//! a given source text, an uptime reading is never negative, and a
//! nonzero `MemAvailable:` field yields a positive count.

use vstd::prelude::*;

use crate::decimal::{
    decimal_fits, decimal_of, decimal_shape, lemma_decimal_of_unique, lemma_decimal_shape_unique,
    valid_decimal, Decimal,
};
use crate::error::SysInfoLinuxError;
use crate::probe::{
    first_mem_line, mem_line_at, mem_value_bad, mem_value_missing, mem_value_ok, memory_outcome,
    no_mem_line, no_second_field_in_line, second_field_in_line, uptime_outcome,
};
use crate::text::{
    all_digits, digits_value, is_ws, lemma_line_end_unique, lemma_token_in_unique, line_end_at,
    no_token_in, token_in,
};

verus! {

/// Both errors are the same variant and carry the same description.
pub open spec fn same_error(e1: SysInfoLinuxError, e2: SysInfoLinuxError) -> bool {
    match (e1, e2) {
        (
            SysInfoLinuxError::SourceUnavailable(m1),
            SysInfoLinuxError::SourceUnavailable(m2),
        ) => m1@ == m2@,
        (SysInfoLinuxError::ParseFailure(m1), SysInfoLinuxError::ParseFailure(m2)) => m1@ == m2@,
        _ => false,
    }
}

/// Both uptime results carry the same reading or the same error.
pub open spec fn same_uptime_result(
    r1: Result<Decimal, SysInfoLinuxError>,
    r2: Result<Decimal, SysInfoLinuxError>,
) -> bool {
    match (r1, r2) {
        (Ok(d1), Ok(d2)) => d1.int_part == d2.int_part && d1.frac_digits@ == d2.frac_digits@,
        (Err(e1), Err(e2)) => same_error(e1, e2),
        _ => false,
    }
}

/// Both memory results carry the same count or the same error.
pub open spec fn same_memory_result(
    r1: Result<u64, SysInfoLinuxError>,
    r2: Result<u64, SysInfoLinuxError>,
) -> bool {
    match (r1, r2) {
        (Ok(v1), Ok(v2)) => v1 == v2,
        (Err(e1), Err(e2)) => same_error(e1, e2),
        _ => false,
    }
}

/// Law: an uptime reading the parser hands back is never negative — it
/// is a magnitude with no sign.
pub proof fn lemma_uptime_nonneg(s: Seq<u8>, d: Decimal)
    requires
        uptime_outcome(s, Ok(d)),
    ensures
        d.scaled_value() >= 0,
{
}

/// The first `MemAvailable:` line is unique.
pub proof fn lemma_first_mem_line_unique(s: Seq<u8>, p1: int, p2: int)
    requires
        first_mem_line(s, p1),
        first_mem_line(s, p2),
    ensures
        p1 == p2,
{
    if p1 < p2 {
        assert(!mem_line_at(s, p1));
    }
    if p2 < p1 {
        assert(!mem_line_at(s, p2));
    }
}

/// A line's second field is unique.
pub proof fn lemma_second_field_unique(
    s: Seq<u8>,
    p: int,
    e: int,
    a1: int,
    b1: int,
    a2: int,
    b2: int,
)
    requires
        second_field_in_line(s, p, e, a1, b1),
        second_field_in_line(s, p, e, a2, b2),
    ensures
        a1 == a2,
        b1 == b2,
{
    let (x1, y1) = choose|x1: int, y1: int|
        #[trigger] token_in(s, p, e, x1, y1) && token_in(s, y1, e, a1, b1);
    let (x2, y2) = choose|x2: int, y2: int|
        #[trigger] token_in(s, p, e, x2, y2) && token_in(s, y2, e, a2, b2);
    lemma_token_in_unique(s, p, e, x1, y1, x2, y2);
    lemma_token_in_unique(s, y1, e, a1, b1, a2, b2);
}

/// An admitted uptime reading names the text's first token and its
/// numeral's decimal-point position.
proof fn lemma_uptime_ok_witness(s: Seq<u8>, d: Decimal) -> (w: (int, int, int))
    requires
        uptime_outcome(s, Ok(d)),
    ensures
        ({
            let (a, b, k) = w;
            &&& token_in(s, 0, s.len() as int, a, b)
            &&& decimal_of(s.subrange(a, b), k, d)
        }),
{
    let (a, b) = choose|a: int, b: int|
        #[trigger] token_in(s, 0, s.len() as int, a, b) && (exists|k: int|
            decimal_of(s.subrange(a, b), k, d));
    let k = choose|k: int| decimal_of(s.subrange(a, b), k, d);
    (a, b, k)
}

/// An admitted memory count names the selected line and its second field.
proof fn lemma_memory_ok_witness(s: Seq<u8>, v: u64) -> (w: (int, int, int, int))
    requires
        memory_outcome(s, Ok(v)),
    ensures
        ({
            let (p, e, a, b) = w;
            &&& first_mem_line(s, p)
            &&& line_end_at(s, p, e)
            &&& second_field_in_line(s, p, e, a, b)
            &&& all_digits(s.subrange(a, b))
            &&& v as nat == digits_value(s.subrange(a, b))
        }),
{
    let p = choose|p: int| #[trigger] first_mem_line(s, p) && mem_value_ok(s, p, v);
    let (e, a, b) = choose|e: int, a: int, b: int|
        {
            &&& line_end_at(s, p, e)
            &&& #[trigger] second_field_in_line(s, p, e, a, b)
            &&& all_digits(s.subrange(a, b))
            &&& v as nat == digits_value(s.subrange(a, b))
        };
    (p, e, a, b)
}

/// Law: when the selected `MemAvailable:` line's numeric field is
/// nonzero — as it is on a live, healthy host — the memory query's
/// value is positive.
pub proof fn lemma_memory_positive(s: Seq<u8>, v: u64, p: int, e: int, a: int, b: int)
    requires
        memory_outcome(s, Ok(v)),
        first_mem_line(s, p),
        line_end_at(s, p, e),
        second_field_in_line(s, p, e, a, b),
        digits_value(s.subrange(a, b)) > 0,
    ensures
        v > 0,
{
    let (p1, e1, a1, b1) = lemma_memory_ok_witness(s, v);
    lemma_first_mem_line_unique(s, p, p1);
    lemma_line_end_unique(s, p, e, e1);
    lemma_second_field_unique(s, p, e, a, b, a1, b1);
}

/// Law: the uptime parse is a function of the source text alone — any
/// two results its contract admits for the same text agree.
pub proof fn lemma_uptime_deterministic(
    s: Seq<u8>,
    r1: Result<Decimal, SysInfoLinuxError>,
    r2: Result<Decimal, SysInfoLinuxError>,
)
    requires
        uptime_outcome(s, r1),
        uptime_outcome(s, r2),
    ensures
        same_uptime_result(r1, r2),
{
    match (r1, r2) {
        (Ok(d1), Ok(d2)) => {
            let (a1, b1, k1) = lemma_uptime_ok_witness(s, d1);
            let (a2, b2, k2) = lemma_uptime_ok_witness(s, d2);
            lemma_token_in_unique(s, 0, s.len() as int, a1, b1, a2, b2);
            lemma_decimal_of_unique(s.subrange(a1, b1), k1, k2, d1, d2);
        },
        (Ok(d1), Err(_)) => {
            lemma_uptime_ok_pins_token(s, d1);
        },
        (Err(_), Ok(d2)) => {
            lemma_uptime_ok_pins_token(s, d2);
        },
        (Err(e1), Err(e2)) => {
            lemma_uptime_err_message(s, e1, e2);
        },
    }
}

/// An admitted uptime reading leaves no admissible parse error: the
/// text's first token is a numeral whose integer part fits.
proof fn lemma_uptime_ok_pins_token(s: Seq<u8>, d: Decimal)
    requires
        uptime_outcome(s, Ok(d)),
    ensures
        !no_token_in(s, 0, s.len() as int),
        forall|a: int, b: int|
            #[trigger] token_in(s, 0, s.len() as int, a, b) ==> valid_decimal(s.subrange(a, b))
                && decimal_fits(s.subrange(a, b)),
{
    let (a1, b1, k1) = lemma_uptime_ok_witness(s, d);
    assert(!no_token_in(s, 0, s.len() as int)) by {
        if no_token_in(s, 0, s.len() as int) {
            assert(is_ws(s[a1]));
            assert(!is_ws(s[a1]));
        }
    }
    let t = s.subrange(a1, b1);
    assert forall|a: int, b: int|
        #[trigger] token_in(s, 0, s.len() as int, a, b) implies valid_decimal(s.subrange(a, b))
        && decimal_fits(s.subrange(a, b)) by {
        lemma_token_in_unique(s, 0, s.len() as int, a, b, a1, b1);
        assert(valid_decimal(t));
        assert forall|k: int| #[trigger] decimal_shape(t, k) implies digits_value(
            t.subrange(0, k),
        ) <= u64::MAX by {
            lemma_decimal_shape_unique(t, k, k1);
        }
    }
}

/// Two admitted uptime errors carry the same description.
proof fn lemma_uptime_err_message(s: Seq<u8>, e1: SysInfoLinuxError, e2: SysInfoLinuxError)
    requires
        uptime_outcome(s, Err(e1)),
        uptime_outcome(s, Err(e2)),
    ensures
        same_error(e1, e2),
{
    match (e1, e2) {
        (SysInfoLinuxError::ParseFailure(_), SysInfoLinuxError::ParseFailure(_)) => {
            if no_token_in(s, 0, s.len() as int) {
                // With the window all whitespace there is no token, so for
                // both errors only the missing-value description remains.
                assert forall|a: int, b: int|
                    !(#[trigger] token_in(s, 0, s.len() as int, a, b)) by {
                    if token_in(s, 0, s.len() as int, a, b) {
                        assert(is_ws(s[a]));
                        assert(!is_ws(s[a]));
                    }
                }
            }
        },
        _ => {
        },
    }
}

/// Law: the memory parse is a function of the source text alone — any
/// two results its contract admits for the same text agree.
pub proof fn lemma_memory_deterministic(
    s: Seq<u8>,
    r1: Result<u64, SysInfoLinuxError>,
    r2: Result<u64, SysInfoLinuxError>,
)
    requires
        memory_outcome(s, r1),
        memory_outcome(s, r2),
    ensures
        same_memory_result(r1, r2),
{
    match (r1, r2) {
        (Ok(v1), Ok(v2)) => {
            let (p1, e1, a1, b1) = lemma_memory_ok_witness(s, v1);
            let (p2, e2, a2, b2) = lemma_memory_ok_witness(s, v2);
            lemma_first_mem_line_unique(s, p1, p2);
            lemma_line_end_unique(s, p1, e1, e2);
            lemma_second_field_unique(s, p1, e1, a1, b1, a2, b2);
        },
        (Ok(v1), Err(_)) => {
            lemma_memory_ok_pins_field(s, v1);
        },
        (Err(_), Ok(v2)) => {
            lemma_memory_ok_pins_field(s, v2);
        },
        (Err(e1), Err(e2)) => {
            lemma_memory_err_message(s, e1, e2);
        },
    }
}

/// An admitted memory count leaves no admissible parse error: a line is
/// found, its second field is there, and it is a digit run that fits.
proof fn lemma_memory_ok_pins_field(s: Seq<u8>, v: u64)
    requires
        memory_outcome(s, Ok(v)),
    ensures
        !no_mem_line(s),
        forall|p: int| #[trigger] first_mem_line(s, p) ==> !mem_value_missing(s, p),
        forall|p: int| #[trigger] first_mem_line(s, p) ==> !mem_value_bad(s, p),
{
    let (p1, e1, a1, b1) = lemma_memory_ok_witness(s, v);
    assert(!no_mem_line(s)) by {
        if no_mem_line(s) {
            assert(!mem_line_at(s, p1));
        }
    }
    assert forall|p: int| #[trigger] first_mem_line(s, p) implies !mem_value_missing(s, p) by {
        lemma_first_mem_line_unique(s, p, p1);
        if mem_value_missing(s, p) {
            let e = choose|e: int|
                #[trigger] line_end_at(s, p, e) && no_second_field_in_line(s, p, e);
            lemma_line_end_unique(s, p, e, e1);
            let (x, y) = choose|x: int, y: int|
                #[trigger] token_in(s, p, e1, x, y) && token_in(s, y, e1, a1, b1);
            assert(no_token_in(s, y, e1));
            assert(is_ws(s[a1]));
            assert(!is_ws(s[a1]));
        }
    }
    assert forall|p: int| #[trigger] first_mem_line(s, p) implies !mem_value_bad(s, p) by {
        lemma_first_mem_line_unique(s, p, p1);
        if mem_value_bad(s, p) {
            let (e, a, b) = choose|e: int, a: int, b: int|
                {
                    &&& line_end_at(s, p, e)
                    &&& #[trigger] second_field_in_line(s, p, e, a, b)
                    &&& (!all_digits(s.subrange(a, b)) || digits_value(s.subrange(a, b))
                        > u64::MAX)
                };
            lemma_line_end_unique(s, p, e, e1);
            lemma_second_field_unique(s, p, e1, a, b, a1, b1);
        }
    }
}

/// Two admitted memory errors carry the same description.
proof fn lemma_memory_err_message(s: Seq<u8>, e1: SysInfoLinuxError, e2: SysInfoLinuxError)
    requires
        memory_outcome(s, Err(e1)),
        memory_outcome(s, Err(e2)),
    ensures
        same_error(e1, e2),
{
    match (e1, e2) {
        (SysInfoLinuxError::ParseFailure(_), SysInfoLinuxError::ParseFailure(_)) => {
            if no_mem_line(s) {
                // No line is found, so for both errors only the not-found
                // description remains.
                assert forall|p: int| !(#[trigger] first_mem_line(s, p)) by {
                    assert(!mem_line_at(s, p));
                }
            } else {
                // A line is found; it cannot both lack a second field and
                // have a bad one, so both errors fall in one disjunct.
                if (exists|p: int| #[trigger] first_mem_line(s, p) && mem_value_missing(s, p))
                    && (exists|p: int| #[trigger] first_mem_line(s, p) && mem_value_bad(s, p)) {
                    let p1 = choose|p: int|
                        #[trigger] first_mem_line(s, p) && mem_value_missing(s, p);
                    let p2 = choose|p: int| #[trigger] first_mem_line(s, p) && mem_value_bad(s, p);
                    lemma_first_mem_line_unique(s, p1, p2);
                    let em = choose|e: int|
                        #[trigger] line_end_at(s, p1, e) && no_second_field_in_line(s, p1, e);
                    let (eb, a, b) = choose|e: int, a: int, b: int|
                        {
                            &&& line_end_at(s, p1, e)
                            &&& #[trigger] second_field_in_line(s, p1, e, a, b)
                            &&& (!all_digits(s.subrange(a, b)) || digits_value(s.subrange(a, b))
                                > u64::MAX)
                        };
                    lemma_line_end_unique(s, p1, em, eb);
                    let (x, y) = choose|x: int, y: int|
                        #[trigger] token_in(s, p1, em, x, y) && token_in(s, y, em, a, b);
                    assert(no_token_in(s, y, em));
                    assert(is_ws(s[a]));
                    assert(!is_ws(s[a]));
                }
            }
        },
        _ => {
        },
    }
}

} // verus!
