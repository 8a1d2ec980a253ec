//! Decimal floating-point literals. The library keeps such a value as the
//! text it was written with, once that text is known to be a literal.

use crate::number::is_digit;
use crate::text::{is_space, lemma_prefix_len, lemma_prefix_len_is, no_space, prefix_len};
use vstd::prelude::*;

verus! {

/// The predicate "is a decimal digit".
pub open spec fn digit() -> spec_fn(u8) -> bool {
    |b: u8| is_digit(b)
}

/// The position after one sign at `from`, if there is one there.
pub open spec fn sign_end(s: Seq<u8>, from: int) -> int {
    if 0 <= from < s.len() && (s[from] == 43 || s[from] == 45) {
        from + 1
    } else {
        from
    }
}

/// The position after the run of digits that starts at `from`.
pub open spec fn digit_run_end(s: Seq<u8>, from: int) -> int {
    from + prefix_len(s.skip(from), digit())
}

/// True when an exponent starts at `at` and runs to the end of `s`: `e` or
/// `E`, an optional sign, and at least one digit.
pub open spec fn exponent_at(s: Seq<u8>, at: int) -> bool {
    0 <= at < s.len() && (s[at] == 101 || s[at] == 69) && {
        let t = sign_end(s, at + 1);
        t < s.len() && digit_run_end(s, t) == s.len()
    }
}

/// True when `s` is a floating-point literal: an optional sign; digits with
/// an optional `.` among or around them, at least one digit in all; and an
/// optional exponent.
pub open spec fn is_float_literal(s: Seq<u8>) -> bool {
    let p = sign_end(s, 0);
    let q = digit_run_end(s, p);
    let has_dot = q < s.len() && s[q] == 46;
    let r = if has_dot {
        digit_run_end(s, q + 1)
    } else {
        q
    };
    let digits = (q - p) + (if has_dot {
        r - q - 1
    } else {
        0
    });
    digits > 0 && (r == s.len() || exponent_at(s, r))
}

/// Every byte of a run of digits is a digit.
pub proof fn lemma_digit_run(s: Seq<u8>, from: int)
    requires
        0 <= from <= s.len(),
    ensures
        from <= digit_run_end(s, from) <= s.len(),
        forall|k: int| from <= k < digit_run_end(s, from) ==> is_digit(#[trigger] s[k]),
{
    let t = s.skip(from);
    lemma_prefix_len(t, digit());
    assert forall|k: int| from <= k < digit_run_end(s, from) implies is_digit(#[trigger] s[k]) by {
        assert((digit())(t[k - from]));
    }
}

/// A floating-point literal holds no whitespace.
pub proof fn lemma_float_no_space(s: Seq<u8>)
    requires
        is_float_literal(s),
    ensures
        no_space(s),
        s.len() > 0,
{
    let p = sign_end(s, 0);
    lemma_digit_run(s, p);
    let q = digit_run_end(s, p);
    let has_dot = q < s.len() && s[q] == 46;
    if has_dot {
        lemma_digit_run(s, q + 1);
    }
    let r = if has_dot {
        digit_run_end(s, q + 1)
    } else {
        q
    };
    if r < s.len() {
        let t = sign_end(s, r + 1);
        lemma_digit_run(s, t);
    }
    assert forall|k: int| 0 <= k < s.len() implies !is_space(#[trigger] s[k]) by {
        if k < p {
        } else if k < q {
            assert(is_digit(s[k]));
        } else if k < r {
            if k > q {
                assert(is_digit(s[k]));
            }
        } else {
            let t = sign_end(s, r + 1);
            if k >= t {
                assert(is_digit(s[k]));
            }
        }
    }
}

/// End of the run of digits that starts at `from`.
pub fn digits_end(s: &[u8], from: usize) -> (r: usize)
    requires
        from <= s.len(),
    ensures
        from <= r <= s.len(),
        r == digit_run_end(s@, from as int),
{
    let mut i: usize = from;
    while i < s.len() && 48 <= s[i] && s[i] <= 57
        invariant
            from <= i <= s.len(),
            forall|k: int| from <= k < i ==> is_digit(#[trigger] s@[k]),
        decreases s.len() - i,
    {
        i += 1;
    }
    proof {
        let t = s@.skip(from as int);
        assert forall|k: int| 0 <= k < i - from implies (digit())(#[trigger] t[k]) by {
            assert(t[k] == s@[k + from]);
        }
        lemma_prefix_len_is(t, digit(), i - from);
    }
    i
}

/// Position after one sign at `from`, if there is one there.
pub fn after_sign(s: &[u8], from: usize) -> (r: usize)
    requires
        from <= s.len(),
    ensures
        r == sign_end(s@, from as int),
{
    if from < s.len() && (s[from] == 43 || s[from] == 45) {
        from + 1
    } else {
        from
    }
}

/// Tells whether `s` is a floating-point literal.
pub fn is_float_bytes(s: &[u8]) -> (r: bool)
    ensures
        r == is_float_literal(s@),
{
    let p = after_sign(s, 0);
    let q = digits_end(s, p);
    let has_dot = q < s.len() && s[q] == 46;
    let r = if has_dot {
        digits_end(s, q + 1)
    } else {
        q
    };
    let digits = (q - p) + (if has_dot {
        r - q - 1
    } else {
        0
    });
    if digits == 0 {
        return false;
    }
    if r == s.len() {
        return true;
    }
    if s[r] != 101 && s[r] != 69 {
        return false;
    }
    let t = after_sign(s, r + 1);
    if t >= s.len() {
        return false;
    }
    let u = digits_end(s, t);
    u == s.len()
}

} // verus!
