//! The probe itself: the verified halves of the three telemetry queries.
//! Callers read the OS source (a pseudo-file's content, a command's
//! standard output) and pass the raw bytes in; these functions do all the
//! parsing and error classification.

use vstd::prelude::*;
use vstd::slice::{slice_subrange, slice_to_vec};
use vstd::string::StringExecFns;

use crate::decimal::{decimal_fits, decimal_of, valid_decimal, Decimal};
use crate::error::SysInfoLinuxError;
use crate::text::{
    all_digits, all_digits_in, digits_value, find_line_end, first_token_in, is_ws,
    lemma_token_in_unique, line_end_at, no_token_in, parse_u64_digits, token_in, ws_byte,
};

verus! {

/// Namespace for the probe's query logic.
pub struct SystemInfo;

/// What `SystemInfo::parse_uptime` may return on source text `s`: the
/// numeral of the text's first whitespace-separated token, or the error
/// that classifies why there is none.
pub open spec fn uptime_outcome(s: Seq<u8>, r: Result<Decimal, SysInfoLinuxError>) -> bool {
    match r {
        Ok(d) => d.wf() && exists|a: int, b: int|
            #[trigger] token_in(s, 0, s.len() as int, a, b) && (exists|k: int|
                decimal_of(s.subrange(a, b), k, d)),
        Err(SysInfoLinuxError::ParseFailure(m)) => {
            ||| (no_token_in(s, 0, s.len() as int) && m@ == "Missing uptime value"@)
            ||| ((exists|a: int, b: int|
                #[trigger] token_in(s, 0, s.len() as int, a, b) && (!valid_decimal(
                    s.subrange(a, b),
                ) || !decimal_fits(s.subrange(a, b)))) && m@ == "Parse error: invalid uptime value"@)
        },
        Err(SysInfoLinuxError::SourceUnavailable(_)) => false,
    }
}

/// `p` begins a line of `s`: the start of the text, or the position right
/// after a newline.
pub open spec fn line_start(s: Seq<u8>, p: int) -> bool {
    0 <= p <= s.len() && (p == 0 || s[p - 1] == 10)
}

/// The bytes of the label `MemAvailable:` stand at `p`.
pub open spec fn mem_prefix_at(s: Seq<u8>, p: int) -> bool {
    &&& 0 <= p && p + 13 <= s.len()
    &&& s[p] == 77 && s[p + 1] == 101 && s[p + 2] == 109  // "Mem"
    &&& s[p + 3] == 65 && s[p + 4] == 118 && s[p + 5] == 97 && s[p + 6] == 105  // "Avai"
    &&& s[p + 7] == 108 && s[p + 8] == 97 && s[p + 9] == 98 && s[p + 10] == 108  // "labl"
    &&& s[p + 11] == 101 && s[p + 12] == 58  // "e:"
}

/// A line of `s` begins at `p` with the label `MemAvailable:`.
pub open spec fn mem_line_at(s: Seq<u8>, p: int) -> bool {
    line_start(s, p) && mem_prefix_at(s, p)
}

/// The first such line of `s` begins at `p`.
pub open spec fn first_mem_line(s: Seq<u8>, p: int) -> bool {
    mem_line_at(s, p) && (forall|q: int| 0 <= q < p ==> !mem_line_at(s, q))
}

/// No line of `s` begins with the label.
pub open spec fn no_mem_line(s: Seq<u8>) -> bool {
    forall|p: int| !mem_line_at(s, p)
}

/// Within the line of `s` that spans `[p, e)`, the second
/// whitespace-separated field is `[a, b)`.
pub open spec fn second_field_in_line(s: Seq<u8>, p: int, e: int, a: int, b: int) -> bool {
    exists|a1: int, b1: int| #[trigger] token_in(s, p, e, a1, b1) && token_in(s, b1, e, a, b)
}

/// The line that spans `[p, e)` has no second field.
pub open spec fn no_second_field_in_line(s: Seq<u8>, p: int, e: int) -> bool {
    forall|a1: int, b1: int| #[trigger] token_in(s, p, e, a1, b1) ==> no_token_in(s, b1, e)
}

/// The selected line's second field reads as the kilobyte count `v`.
pub open spec fn mem_value_ok(s: Seq<u8>, p: int, v: u64) -> bool {
    exists|e: int, a: int, b: int|
        {
            &&& line_end_at(s, p, e)
            &&& #[trigger] second_field_in_line(s, p, e, a, b)
            &&& all_digits(s.subrange(a, b))
            &&& v as nat == digits_value(s.subrange(a, b))
        }
}

/// The selected line has no second field to read.
pub open spec fn mem_value_missing(s: Seq<u8>, p: int) -> bool {
    exists|e: int| #[trigger] line_end_at(s, p, e) && no_second_field_in_line(s, p, e)
}

/// The selected line's second field is not a kilobyte count that fits in
/// a `u64`.
pub open spec fn mem_value_bad(s: Seq<u8>, p: int) -> bool {
    exists|e: int, a: int, b: int|
        {
            &&& line_end_at(s, p, e)
            &&& #[trigger] second_field_in_line(s, p, e, a, b)
            &&& (!all_digits(s.subrange(a, b)) || digits_value(s.subrange(a, b)) > u64::MAX)
        }
}

/// What `SystemInfo::parse_available_memory` may return on source text
/// `s`: the value of the first `MemAvailable:` line's second field, or
/// the error that classifies why there is none.
pub open spec fn memory_outcome(s: Seq<u8>, r: Result<u64, SysInfoLinuxError>) -> bool {
    match r {
        Ok(v) => exists|p: int| #[trigger] first_mem_line(s, p) && mem_value_ok(s, p, v),
        Err(SysInfoLinuxError::ParseFailure(m)) => {
            ||| (no_mem_line(s) && m@ == "MemAvailable field not found"@)
            ||| ((exists|p: int| #[trigger] first_mem_line(s, p) && mem_value_missing(s, p))
                && m@ == "Parse error: missing memory value"@)
            ||| ((exists|p: int| #[trigger] first_mem_line(s, p) && mem_value_bad(s, p))
                && m@ == "Parse error: invalid memory value"@)
        },
        Err(SysInfoLinuxError::SourceUnavailable(_)) => false,
    }
}

/// `[a, b)` is `s` with its whitespace margins removed.
pub open spec fn trimmed_range(s: Seq<u8>, a: int, b: int) -> bool {
    &&& 0 <= a <= b <= s.len()
    &&& (forall|j: int| 0 <= j < a ==> is_ws(s[j]))
    &&& (forall|j: int| b <= j < s.len() ==> is_ws(s[j]))
    &&& (a == b || (!is_ws(s[a]) && !is_ws(s[b - 1])))
}

/// Whether the label `MemAvailable:` stands at `p`.
fn mem_prefix_check(s: &[u8], p: usize) -> (r: bool)
    requires
        p <= s@.len(),
    ensures
        r == mem_prefix_at(s@, p as int),
{
    if s.len() - p < 13 {
        return false;
    }
    s[p] == 77 && s[p + 1] == 101 && s[p + 2] == 109 && s[p + 3] == 65 && s[p + 4] == 118 && s[p
        + 5] == 97 && s[p + 6] == 105 && s[p + 7] == 108 && s[p + 8] == 97 && s[p + 9] == 98 && s[p
        + 10] == 108 && s[p + 11] == 101 && s[p + 12] == 58
}

/// Where the first `MemAvailable:` line of `s` begins, if any line does.
fn find_mem_line(s: &[u8]) -> (r: Option<usize>)
    ensures
        match r {
            Some(p) => first_mem_line(s@, p as int),
            None => no_mem_line(s@),
        },
{
    let mut pos: usize = 0;
    while pos < s.len()
        invariant
            pos <= s@.len(),
            forall|q: int| 0 <= q < pos ==> !mem_line_at(s@, q),
        decreases s@.len() - pos,
    {
        let at_start: bool = pos == 0 || s[pos - 1] == 10;
        if at_start {
            if mem_prefix_check(s, pos) {
                return Some(pos);
            }
        }
        assert(!mem_line_at(s@, pos as int));
        pos = pos + 1;
    }
    assert forall|p: int| !mem_line_at(s@, p) by {
        if 0 <= p < s@.len() {
            assert(!mem_line_at(s@, p));
        }
    }
    None
}

impl SystemInfo {
    /// Parse uptime source text: the first whitespace-separated token,
    /// read as a decimal numeral of seconds.
    pub fn parse_uptime(text: &[u8]) -> (r: Result<Decimal, SysInfoLinuxError>)
        ensures
            uptime_outcome(text@, r),
    {
        match first_token_in(text, 0, text.len()) {
            None => {
                proof {
                    assert(no_token_in(text@, 0, text@.len() as int));
                }
                Err(SysInfoLinuxError::ParseFailure(String::from_str("Missing uptime value")))
            },
            Some((a, b)) => {
                proof {
                    assert(token_in(text@, 0, text@.len() as int, a as int, b as int));
                }
                match crate::decimal::parse_decimal_range(text, a, b) {
                    Some(d) => {
                        proof {
                            assert(exists|k: int|
                                decimal_of(text@.subrange(a as int, b as int), k, d));
                        }
                        Ok(d)
                    },
                    None => Err(
                        SysInfoLinuxError::ParseFailure(
                            String::from_str("Parse error: invalid uptime value"),
                        ),
                    ),
                }
            },
        }
    }

    /// Parse memory source text: scan for the first `MemAvailable:` line
    /// and read its second field as a kilobyte count.
    pub fn parse_available_memory(text: &[u8]) -> (r: Result<u64, SysInfoLinuxError>)
        ensures
            memory_outcome(text@, r),
    {
        let p = match find_mem_line(text) {
            None => {
                return Err(
                    SysInfoLinuxError::ParseFailure(
                        String::from_str("MemAvailable field not found"),
                    ),
                );
            },
            Some(p) => p,
        };
        let e = find_line_end(text, p);
        let (a1, b1) = match first_token_in(text, p, e) {
            None => {
                // The line begins with the label's `M`, which is not
                // whitespace, so a first token is always there.
                proof {
                    assert(p < e) by {
                        if e == p {
                            assert(text@[p as int] == 77);
                        }
                    }
                    assert(is_ws(text@[p as int]));
                    assert(text@[p as int] == 77);
                }
                return Err(SysInfoLinuxError::ParseFailure(String::new()));
            },
            Some(t) => t,
        };
        match first_token_in(text, b1, e) {
            None => {
                proof {
                    assert forall|x1: int, y1: int|
                        #[trigger] token_in(text@, p as int, e as int, x1, y1) implies no_token_in(
                        text@,
                        y1,
                        e as int,
                    ) by {
                        lemma_token_in_unique(
                            text@,
                            p as int,
                            e as int,
                            x1,
                            y1,
                            a1 as int,
                            b1 as int,
                        );
                    }
                    assert(mem_value_missing(text@, p as int));
                }
                Err(
                    SysInfoLinuxError::ParseFailure(
                        String::from_str("Parse error: missing memory value"),
                    ),
                )
            },
            Some((a2, b2)) => {
                proof {
                    assert(second_field_in_line(text@, p as int, e as int, a2 as int, b2 as int));
                }
                if !all_digits_in(text, a2, b2) {
                    proof {
                        assert(mem_value_bad(text@, p as int));
                    }
                    return Err(
                        SysInfoLinuxError::ParseFailure(
                            String::from_str("Parse error: invalid memory value"),
                        ),
                    );
                }
                match parse_u64_digits(text, a2, b2) {
                    None => {
                        proof {
                            assert(mem_value_bad(text@, p as int));
                        }
                        Err(
                            SysInfoLinuxError::ParseFailure(
                                String::from_str("Parse error: invalid memory value"),
                            ),
                        )
                    },
                    Some(v) => {
                        proof {
                            assert(mem_value_ok(text@, p as int, v));
                        }
                        Ok(v)
                    },
                }
            },
        }
    }

    /// Decide the kernel-version query from the reporting command's
    /// outcome: its standard output with the whitespace margins removed
    /// when the command succeeded, nothing otherwise. The value handed
    /// back never has leading or trailing whitespace.
    pub fn kernel_version_from_output(success: bool, raw: &[u8]) -> (r: Option<Vec<u8>>)
        ensures
            r is Some <==> success,
            match r {
                Some(v) => {
                    &&& exists|a: int, b: int|
                        #[trigger] trimmed_range(raw@, a, b) && v@ == raw@.subrange(a, b)
                    &&& (v@.len() > 0 ==> !is_ws(v@[0]) && !is_ws(v@[v@.len() - 1]))
                },
                None => true,
            },
    {
        if !success {
            return None;
        }
        let n = raw.len();
        let mut a: usize = 0;
        while a < n && ws_byte(raw[a])
            invariant
                a <= n == raw@.len(),
                forall|j: int| 0 <= j < a ==> is_ws(raw@[j]),
            decreases n - a,
        {
            a = a + 1;
        }
        if a == n {
            let v: Vec<u8> = Vec::new();
            proof {
                assert(trimmed_range(raw@, 0, 0));
                assert(v@ =~= raw@.subrange(0, 0));
            }
            return Some(v);
        }
        let mut b: usize = n;
        while b > a + 1 && ws_byte(raw[b - 1])
            invariant
                a < b <= n == raw@.len(),
                !is_ws(raw@[a as int]),
                forall|j: int| b <= j < n ==> is_ws(raw@[j]),
            decreases b,
        {
            b = b - 1;
        }
        let part = slice_subrange(raw, a, b);
        let v = slice_to_vec(part);
        proof {
            assert(trimmed_range(raw@, a as int, b as int));
            assert(v@[0] == raw@[a as int]);
            assert(v@[v@.len() - 1] == raw@[b - 1]);
        }
        Some(v)
    }
}

} // verus!
