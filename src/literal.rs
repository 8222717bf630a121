use vstd::prelude::*;
use crate::rational::Rational;
use crate::tax::Tax;

verus! {

/// The value of a run of decimal digits.
pub open spec fn digits_value(b: Seq<u8>) -> int
    decreases b.len(),
{
    if b.len() == 0 {
        0
    } else {
        digits_value(b.drop_last()) * 10 + (b.last() - 48)
    }
}

/// One or more decimal digits.
pub open spec fn is_digits(b: Seq<u8>) -> bool {
    b.len() >= 1 && forall|i: int| 0 <= i < b.len() ==> 48 <= #[trigger] b[i] <= 57
}

/// The value of an integer written as digits after an optional `+` or `-`.
pub open spec fn integer_of(b: Seq<u8>) -> Option<int> {
    if b.len() >= 1 && b[0] == 45 && is_digits(b.subrange(1, b.len() as int)) {
        Some(-digits_value(b.subrange(1, b.len() as int)))
    } else if b.len() >= 1 && b[0] == 43 && is_digits(b.subrange(1, b.len() as int)) {
        Some(digits_value(b.subrange(1, b.len() as int)))
    } else if is_digits(b) {
        Some(digits_value(b))
    } else {
        None
    }
}

/// A value that a `Rational` part can hold: its negation fits in `i64` too.
pub open spec fn in_range(v: int) -> bool {
    -i64::MAX <= v <= i64::MAX
}

/// An integer literal whose value is in range.
pub open spec fn small_integer_of(b: Seq<u8>) -> Option<int> {
    match integer_of(b) {
        Some(v) => if in_range(v) {
            Some(v)
        } else {
            None
        },
        None => None,
    }
}

/// Whether `b` holds no `/`.
pub open spec fn no_slash(b: Seq<u8>) -> bool {
    forall|i: int| 0 <= i < b.len() ==> #[trigger] b[i] != 47
}

/// The numerator and denominator that the literal `n` or `n/d` writes, with
/// each integer in range and a non-zero denominator; `None` for any other text.
pub open spec fn fraction_of(b: Seq<u8>) -> Option<(int, int)> {
    if no_slash(b) {
        match small_integer_of(b) {
            Some(n) => Some((n, 1)),
            None => None,
        }
    } else {
        let k = choose|k: int| 0 <= k < b.len() && b[k] == 47 && no_slash(b.subrange(0, k));
        match (small_integer_of(b.subrange(0, k)), small_integer_of(b.subrange(k + 1, b.len() as int))) {
            (Some(n), Some(d)) => if d != 0 {
                Some((n, d))
            } else {
                None
            },
            _ => None,
        }
    }
}

/// The text `M`.
pub open spec fn is_penalty_literal(b: Seq<u8>) -> bool {
    b.len() == 1 && b[0] == 77
}

impl Tax {
    /// Reads a Big-M literal: `M` is `0 + 1M`; a number `n` or `n/d` (as
    /// `num` writes fractions) is that finite value. `None` for any other
    /// text, a zero denominator, or an integer out of range.
    pub fn parse(text: &[u8]) -> (r: Option<Tax>)
        ensures
            is_penalty_literal(text@) ==> (r matches Some(t) && t.re.numer == 0 && t.im.numer
                == t.im.denom),
            !is_penalty_literal(text@) ==> match fraction_of(text@) {
                Some((n, d)) => (r matches Some(t) && t.wf() && t.im.numer == 0 && t.re.numer * d
                    == n * t.re.denom),
                None => r is None,
            },
    {
        if text.len() == 1 && text[0] == 77 {
            return Some(Tax::penalty());
        }
        let len = text.len();
        let mut k: usize = 0;
        while k < len && text[k] != 47
            invariant
                len == text@.len(),
                k <= len,
                no_slash(text@.subrange(0, k as int)),
            decreases len - k,
        {
            assert(text@.subrange(0, k + 1) =~= text@.subrange(0, k as int).push(text@[k as int]));
            k = k + 1;
        }
        if k == len {
            assert(text@.subrange(0, len as int) =~= text@);
            return match parse_integer(text, 0, len) {
                Some(n) => Some(Tax::from_real(Rational::from_integer(n))),
                None => None,
            };
        }
        proof {
            assert(!no_slash(text@));
            let c = choose|c: int|
                0 <= c < text@.len() && text@[c] == 47 && no_slash(text@.subrange(0, c));
            if c < k {
                assert(text@.subrange(0, k as int)[c] == 47);
            }
            if c > k {
                assert(text@.subrange(0, c)[k as int] == 47);
            }
            assert(c == k);
        }
        let n = parse_integer(text, 0, k);
        let d = parse_integer(text, k + 1, len);
        match (n, d) {
            (Some(n), Some(d)) => if d != 0 {
                Some(Tax::from_real(Rational::new(n, d)))
            } else {
                None
            },
            _ => None,
        }
    }
}

/// The integer literal `b`, where it fits in `i64`.
pub open spec fn i64_literal(b: Seq<u8>) -> Option<int> {
    match integer_of(b) {
        Some(v) => if i64::MIN <= v <= i64::MAX {
            Some(v)
        } else {
            None
        },
        None => None,
    }
}

/// Relies on `<i64 as FromStr>::from_str` (after reading the bytes as UTF-8):
/// an optional `+` or `-` and one or more decimal digits, `Err` for any other
/// text and for a value outside `i64`.
#[verifier::external_body]
fn parse_i64(b: &[u8]) -> (r: Option<i64>)
    ensures
        r == match i64_literal(b@) {
            Some(v) => Some(v as i64),
            None => None::<i64>,
        },
{
    std::str::from_utf8(b).ok().and_then(|s| s.parse::<i64>().ok())
}

/// Reads the integer literal `b[lo..hi]`; `None` also for `i64::MIN`, whose
/// negation a `Rational` cannot hold.
fn parse_integer(b: &[u8], lo: usize, hi: usize) -> (r: Option<i64>)
    requires
        lo <= hi <= b@.len(),
    ensures
        match small_integer_of(b@.subrange(lo as int, hi as int)) {
            Some(v) => r == Some(v as i64),
            None => r is None,
        },
{
    let part = vstd::slice::slice_subrange(b, lo, hi);
    match parse_i64(part) {
        Some(v) => if v == i64::MIN {
            None
        } else {
            Some(v)
        },
        None => None,
    }
}

} // verus!
