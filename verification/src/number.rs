//! Number validation: a verified recognizer of the strings that 64-bit
//! float parsing accepts.
//!
//! The accepted language, as the standard library documents it for
//! `f64::from_str`, is an optional sign followed by either one of the
//! special words `inf`, `infinity` and `nan` (matched case-insensitively)
//! or a decimal number: a mantissa of digits with at most one point (digits
//! on at least one of its sides), then an optional exponent `e`/`E`, an
//! optional sign and at least one digit. Every string of this language
//! parses successfully; the value may round, but validation only needs
//! acceptance, so the tree stores the accepted text and no float is needed.

use vstd::prelude::*;
use vstd::string::StrSliceExecFns;
use crate::text::idx_of_char;
use crate::text::lemma_idx_of_char_at;
use crate::text::lemma_idx_of_char_props;

verus! {

/// A decimal digit.
pub open spec fn is_digit_char(c: char) -> bool {
    0x30 <= c as u32 && c as u32 <= 0x39
}

/// Every character of `s` is a decimal digit.
pub open spec fn all_digits(s: Seq<char>) -> bool {
    forall|i: int| 0 <= i < s.len() ==> is_digit_char(s[i])
}

/// A sign character.
pub open spec fn is_sign_char(c: char) -> bool {
    c == '+' || c == '-'
}

/// `c` equals the lowercase ASCII letter `l`, ignoring case.
pub open spec fn eq_ci_char(c: char, l: char) -> bool {
    c == l || (0x61 <= l as u32 && l as u32 <= 0x7A && c as u32 + 0x20 == l as u32)
}

/// `s` equals the lowercase ASCII word `w`, ignoring case.
pub open spec fn eq_ignore_ascii_case(s: Seq<char>, w: Seq<char>) -> bool {
    s.len() == w.len() && forall|i: int| 0 <= i < s.len() ==> eq_ci_char(s[i], w[i])
}

/// One of the special words `inf`, `infinity` and `nan`, in any case.
pub open spec fn is_special_float_word(s: Seq<char>) -> bool {
    ||| eq_ignore_ascii_case(s, seq!['i', 'n', 'f'])
    ||| eq_ignore_ascii_case(s, seq!['i', 'n', 'f', 'i', 'n', 'i', 't', 'y'])
    ||| eq_ignore_ascii_case(s, seq!['n', 'a', 'n'])
}

/// The mantissa: digits with at most one point, and a digit on at least one
/// side of the point.
pub open spec fn is_mantissa(m: Seq<char>) -> bool {
    let d = idx_of_char(m, '.');
    if 0 <= d && d < m.len() {
        let ip = m.subrange(0, d);
        let fp = m.subrange(d + 1, m.len() as int);
        all_digits(ip) && all_digits(fp) && (ip.len() > 0 || fp.len() > 0)
    } else {
        all_digits(m) && m.len() > 0
    }
}

/// The exponent: `e` or `E`, an optional sign, then at least one digit.
pub open spec fn is_exponent(e: Seq<char>) -> bool {
    let body = e.subrange(1, e.len() as int);
    let digits = if body.len() > 0 && is_sign_char(body[0]) {
        body.subrange(1, body.len() as int)
    } else {
        body
    };
    e.len() >= 1 && (e[0] == 'e' || e[0] == 'E') && digits.len() > 0 && all_digits(digits)
}

/// A mantissa followed by an optional exponent, split at the first `e`/`E`.
pub open spec fn is_decimal_body(b: Seq<char>) -> bool {
    let ee = idx_of_char(b, 'e');
    let eu = idx_of_char(b, 'E');
    let ei = if ee <= eu {
        ee
    } else {
        eu
    };
    if 0 <= ei && ei < b.len() {
        is_mantissa(b.subrange(0, ei)) && is_exponent(b.subrange(ei, b.len() as int))
    } else {
        is_mantissa(b)
    }
}

/// The language that 64-bit float parsing accepts: an optional sign, then a
/// special word or a decimal number.
pub open spec fn is_float_text(s: Seq<char>) -> bool {
    let body = if s.len() > 0 && is_sign_char(s[0]) {
        s.subrange(1, s.len() as int)
    } else {
        s
    };
    is_special_float_word(body) || is_decimal_body(body)
}

/// Whether every character of `s` in `[from, to)` is a digit.
fn all_digits_range(s: &str, from: usize, to: usize) -> (b: bool)
    requires
        from <= to <= s@.len(),
    ensures
        b == all_digits(s@.subrange(from as int, to as int)),
{
    let mut k: usize = from;
    while k < to
        invariant
            from <= k <= to,
            to <= s@.len(),
            forall|t: int| from <= t < k ==> is_digit_char(s@[t]),
        decreases to - k,
    {
        let u = s.get_char(k) as u32;
        if !(0x30 <= u && u <= 0x39) {
            proof {
                assert(s@.subrange(from as int, to as int)[k - from] == s@[k as int]);
            }
            return false;
        }
        k = k + 1;
    }
    proof {
        assert forall|i: int| 0 <= i < to - from implies is_digit_char(
            s@.subrange(from as int, to as int)[i],
        ) by {
            assert(is_digit_char(s@[from + i]));
        }
    }
    true
}

/// Whether the suffix of `s` from `from` equals the lowercase ASCII word
/// `w`, ignoring case.
fn eq_word_ci(s: &str, from: usize, w: &str) -> (b: bool)
    requires
        from <= s@.len(),
    ensures
        b == eq_ignore_ascii_case(s@.subrange(from as int, s@.len() as int), w@),
{
    let n = s.unicode_len();
    let wn = w.unicode_len();
    if n - from != wn {
        return false;
    }
    let mut k: usize = 0;
    while k < wn
        invariant
            0 <= k <= wn,
            from <= n,
            n == s@.len(),
            wn == w@.len(),
            n - from == wn,
            forall|t: int| 0 <= t < k ==> eq_ci_char(s@[from + t], w@[t]),
        decreases wn - k,
    {
        let c = s.get_char(from + k) as u32;
        let l = w.get_char(k) as u32;
        if !(c == l || (0x61 <= l && l <= 0x7A && c + 0x20 == l)) {
            proof {
                assert(s@.subrange(from as int, s@.len() as int)[k as int] == s@[from + k]);
            }
            return false;
        }
        k = k + 1;
    }
    proof {
        assert forall|i: int| 0 <= i < wn implies eq_ci_char(
            s@.subrange(from as int, s@.len() as int)[i],
            w@[i],
        ) by {
            assert(eq_ci_char(s@[from + i], w@[i]));
        }
    }
    true
}

/// Returns the position, relative to `from`, of the first occurrence of `c`
/// in `s` between `from` and `to`, if any.
fn find_in_range(s: &str, from: usize, to: usize, c: char) -> (r: Option<usize>)
    requires
        from <= to <= s@.len(),
    ensures
        match r {
            Some(j) => j == idx_of_char(s@.subrange(from as int, to as int), c) && j < to - from,
            None => idx_of_char(s@.subrange(from as int, to as int), c) == to - from,
        },
{
    let ghost body = s@.subrange(from as int, to as int);
    let mut k: usize = from;
    while k < to
        invariant
            from <= k <= to,
            to <= s@.len(),
            body == s@.subrange(from as int, to as int),
            forall|t: int| from <= t < k ==> s@[t] != c,
        decreases to - k,
    {
        if s.get_char(k) == c {
            proof {
                assert forall|t: int| 0 <= t < k - from implies body[t] != c by {
                    assert(body[t] == s@[from + t]);
                }
                assert(body[k - from] == s@[k as int]);
                lemma_idx_of_char_at(body, c, k - from);
            }
            return Some(k - from);
        }
        k = k + 1;
    }
    proof {
        assert forall|t: int| 0 <= t < to - from implies body[t] != c by {
            assert(body[t] == s@[from + t]);
        }
        lemma_idx_of_char_at(body, c, (to - from) as int);
    }
    None
}

/// Whether `s` in `[from, to)` is a mantissa.
fn check_mantissa(s: &str, from: usize, to: usize) -> (b: bool)
    requires
        from <= to <= s@.len(),
    ensures
        b == is_mantissa(s@.subrange(from as int, to as int)),
{
    let ghost m = s@.subrange(from as int, to as int);
    match find_in_range(s, from, to, '.') {
        Some(d) => {
            let ip_ok = all_digits_range(s, from, from + d);
            let fp_ok = all_digits_range(s, from + d + 1, to);
            proof {
                assert(m.subrange(0, d as int) =~= s@.subrange(from as int, from + d as int));
                assert(m.subrange(d + 1, m.len() as int) =~= s@.subrange(from + d + 1, to as int));
            }
            ip_ok && fp_ok && (d > 0 || from + d + 1 < to)
        },
        None => {
            let ok = all_digits_range(s, from, to);
            ok && to > from
        },
    }
}

/// Whether the suffix of `s` from `from` is an exponent.
fn check_exponent(s: &str, from: usize) -> (b: bool)
    requires
        from < s@.len(),
    ensures
        b == is_exponent(s@.subrange(from as int, s@.len() as int)),
{
    let n = s.unicode_len();
    let ghost exp = s@.subrange(from as int, s@.len() as int);
    let ghost ebody = exp.subrange(1, exp.len() as int);
    proof {
        assert(exp[0] == s@[from as int]);
        assert(ebody =~= s@.subrange(from + 1, n as int));
    }
    let c0 = s.get_char(from);
    if !(c0 == 'e' || c0 == 'E') {
        return false;
    }
    let dstart: usize = if from + 1 < n {
        let c = s.get_char(from + 1);
        if c == '+' || c == '-' {
            from + 2
        } else {
            from + 1
        }
    } else {
        from + 1
    };
    proof {
        if dstart == from + 2 {
            assert(ebody[0] == s@[from + 1]);
            assert(ebody.subrange(1, ebody.len() as int) =~= s@.subrange(dstart as int, n as int));
        } else {
            assert(ebody =~= s@.subrange(dstart as int, n as int));
        }
    }
    dstart < n && all_digits_range(s, dstart, n)
}

/// Whether `s` lies in the language of `is_float_text`: whether number
/// validation accepts it.
pub fn is_number_text(s: &str) -> (b: bool)
    ensures
        b == is_float_text(s@),
{
    let n = s.unicode_len();
    let start: usize = if n > 0 {
        let c = s.get_char(0);
        if c == '+' || c == '-' {
            1
        } else {
            0
        }
    } else {
        0
    };
    let ghost body = s@.subrange(start as int, n as int);
    proof {
        if start == 0 {
            assert(body =~= s@);
        }
    }
    if eq_word_ci(s, start, "inf") || eq_word_ci(s, start, "infinity") || eq_word_ci(
        s,
        start,
        "nan",
    ) {
        proof {
            reveal_strlit("inf");
            reveal_strlit("infinity");
            reveal_strlit("nan");
            assert("inf"@ =~= seq!['i', 'n', 'f']);
            assert("infinity"@ =~= seq!['i', 'n', 'f', 'i', 'n', 'i', 't', 'y']);
            assert("nan"@ =~= seq!['n', 'a', 'n']);
        }
        return true;
    }
    proof {
        reveal_strlit("inf");
        reveal_strlit("infinity");
        reveal_strlit("nan");
        assert("inf"@ =~= seq!['i', 'n', 'f']);
        assert("infinity"@ =~= seq!['i', 'n', 'f', 'i', 'n', 'i', 't', 'y']);
        assert("nan"@ =~= seq!['n', 'a', 'n']);
        assert(!is_special_float_word(body));
    }
    // The decimal alternative: split the body at its first `e`/`E`.
    let re = find_in_range(s, start, n, 'e');
    let ru = find_in_range(s, start, n, 'E');
    let body_len = n - start;
    let ei: usize = match (re, ru) {
        (None, None) => body_len,
        (Some(a), None) => a,
        (None, Some(b)) => b,
        (Some(a), Some(b)) => if a <= b {
            a
        } else {
            b
        },
    };
    proof {
        let ee = idx_of_char(body, 'e');
        let eu = idx_of_char(body, 'E');
        lemma_idx_of_char_props(body, 'e');
        lemma_idx_of_char_props(body, 'E');
        assert(ei == if ee <= eu {
            ee
        } else {
            eu
        });
    }
    if ei == body_len {
        let m = check_mantissa(s, start, n);
        return m;
    }
    let me = start + ei;
    let m = check_mantissa(s, start, me);
    proof {
        assert(body.subrange(0, ei as int) =~= s@.subrange(start as int, me as int));
    }
    if !m {
        return false;
    }
    let e = check_exponent(s, me);
    proof {
        assert(body.subrange(ei as int, body.len() as int) =~= s@.subrange(me as int, n as int));
    }
    e
}

} // verus!
