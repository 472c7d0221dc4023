//! Which texts read as a number: the texts that `str::parse::<f64>` accepts,
//! as its documentation gives them (ASCII letters in either case):
//!
//! ```text
//! Float  ::= Sign? ( 'inf' | 'infinity' | 'nan' | Number )
//! Number ::= ( Digit+ | Digit+ '.' Digit* | Digit* '.' Digit+ ) Exp?
//! Exp    ::= 'e' Sign? Digit+
//! Sign   ::= [+-]
//! ```
use vstd::prelude::*;
use crate::text::{ascii_upper, chars_of, is_ascii_digit, is_digit, to_ascii_uppercase};

verus! {

/// `s` is the lower-case word `w` with any of its letters in upper case.
pub open spec fn same_ignoring_case(s: Seq<char>, w: Seq<char>) -> bool {
    s.len() == w.len() && forall|i: int|
        0 <= i < s.len() ==> (s[i] == w[i] || s[i] == ascii_upper(w[i]))
}

pub open spec fn is_sign(c: char) -> bool {
    c == '+' || c == '-'
}

pub open spec fn is_exp_mark(c: char) -> bool {
    c == 'e' || c == 'E'
}

/// Digits and at most one dot, with at least one digit.
pub open spec fn is_mantissa(m: Seq<char>) -> bool {
    &&& forall|i: int| 0 <= i < m.len() ==> is_digit(#[trigger] m[i]) || m[i] == '.'
    &&& forall|i: int, j: int| 0 <= i < j < m.len() ==> !(#[trigger] m[i] == '.' && #[trigger] m[j] == '.')
    &&& exists|i: int| 0 <= i < m.len() && is_digit(#[trigger] m[i])
}

/// `x` without its leading sign, if it has one.
pub open spec fn unsigned(x: Seq<char>) -> Seq<char> {
    if x.len() > 0 && is_sign(x[0]) {
        x.drop_first()
    } else {
        x
    }
}

/// One digit or more, and nothing else.
pub open spec fn is_digits(d: Seq<char>) -> bool {
    d.len() > 0 && forall|i: int| 0 <= i < d.len() ==> is_digit(#[trigger] d[i])
}

/// What follows an exponent's mark: a sign, maybe, then one digit or more.
pub open spec fn is_exponent_digits(x: Seq<char>) -> bool {
    is_digits(unsigned(x))
}

/// A mantissa, with an exponent or without one.
pub open spec fn is_decimal(s: Seq<char>) -> bool {
    ||| (forall|i: int| 0 <= i < s.len() ==> !is_exp_mark(#[trigger] s[i])) && is_mantissa(s)
    ||| exists|k: int|
        0 <= k < s.len() && is_exp_mark(#[trigger] s[k]) && is_mantissa(s.subrange(0, k))
            && is_exponent_digits(s.subrange(k + 1, s.len() as int))
}

/// `s` reads as a number: a sign, maybe, then an infinity, a NaN, or a
/// decimal.
pub open spec fn is_number_text(s: Seq<char>) -> bool {
    let body = unsigned(s);
    ||| same_ignoring_case(body, seq!['i', 'n', 'f'])
    ||| same_ignoring_case(body, seq!['i', 'n', 'f', 'i', 'n', 'i', 't', 'y'])
    ||| same_ignoring_case(body, seq!['n', 'a', 'n'])
    ||| is_decimal(body)
}

fn is_sign_char(c: char) -> (r: bool)
    ensures
        r == is_sign(c),
{
    c == '+' || c == '-'
}

fn is_exp_mark_char(c: char) -> (r: bool)
    ensures
        r == is_exp_mark(c),
{
    c == 'e' || c == 'E'
}

/// Whether the characters from `lo` on are the word `w` in any case.
fn word_at(v: &Vec<char>, lo: usize, w: &Vec<char>) -> (r: bool)
    requires
        lo <= v@.len(),
    ensures
        r == same_ignoring_case(v@.subrange(lo as int, v@.len() as int), w@),
{
    let ghost s = v@.subrange(lo as int, v@.len() as int);
    if v.len() - lo != w.len() {
        return false;
    }
    let n = v.len();
    let mut i: usize = 0;
    while i < w.len()
        invariant
            n == v@.len(),
            s == v@.subrange(lo as int, v@.len() as int),
            s.len() == w@.len(),
            lo + w@.len() == v@.len(),
            i <= w@.len(),
            forall|j: int| 0 <= j < i ==> (s[j] == w@[j] || s[j] == ascii_upper(w@[j])),
        decreases w@.len() - i,
    {
        let c = v[lo + i];
        let u = w[i];
        if c != u && c != to_ascii_uppercase(u) {
            assert(s[i as int] == c);
            return false;
        }
        i += 1;
    }
    true
}

/// Whether the characters in `lo..hi` are a mantissa.
fn mantissa_in(v: &Vec<char>, lo: usize, hi: usize) -> (r: bool)
    requires
        lo <= hi <= v@.len(),
    ensures
        r == is_mantissa(v@.subrange(lo as int, hi as int)),
{
    let ghost m = v@.subrange(lo as int, hi as int);
    let mut dot: Option<usize> = None;
    let mut digit = false;
    let ghost mut witness: int = 0;
    let mut i = lo;
    while i < hi
        invariant
            m == v@.subrange(lo as int, hi as int),
            lo <= i <= hi <= v@.len(),
            forall|j: int| lo <= j < i ==> is_digit(#[trigger] v@[j]) || v@[j] == '.',
            match dot {
                None => forall|j: int| lo <= j < i ==> #[trigger] v@[j] != '.',
                Some(d) => lo <= d < i && v@[d as int] == '.' && forall|j: int|
                    lo <= j < i && #[trigger] v@[j] == '.' ==> j == d,
            },
            digit ==> lo <= witness < i && is_digit(v@[witness]),
            !digit ==> forall|j: int| lo <= j < i ==> !is_digit(#[trigger] v@[j]),
        decreases hi - i,
    {
        let c = v[i];
        if is_ascii_digit(c) {
            digit = true;
            proof {
                witness = i as int;
            }
        } else if c == '.' {
            if let Some(d) = dot {
                assert(m[d - lo] == '.' && m[i - lo] == '.');
                return false;
            }
            dot = Some(i);
        } else {
            assert(m[i - lo] == c);
            return false;
        }
        i += 1;
    }
    if digit {
        assert(m[witness - lo] == v@[witness]);
        assert forall|a: int, b: int| 0 <= a < b < m.len() implies !(#[trigger] m[a] == '.'
            && #[trigger] m[b] == '.') by {
            assert(m[a] == v@[lo + a] && m[b] == v@[lo + b]);
        }
        assert forall|a: int| 0 <= a < m.len() implies is_digit(#[trigger] m[a]) || m[a] == '.' by {
            assert(m[a] == v@[lo + a]);
        }
        true
    } else {
        assert forall|a: int| 0 <= a < m.len() implies !is_digit(#[trigger] m[a]) by {
            assert(m[a] == v@[lo + a]);
        }
        false
    }
}

/// Whether the characters from `lo` on are what follows an exponent's mark.
fn exponent_digits_from(v: &Vec<char>, lo: usize) -> (r: bool)
    requires
        lo <= v@.len(),
    ensures
        r == is_exponent_digits(v@.subrange(lo as int, v@.len() as int)),
{
    let ghost x = v@.subrange(lo as int, v@.len() as int);
    let mut start = lo;
    if lo < v.len() && is_sign_char(v[lo]) {
        start = lo + 1;
    }
    let ghost d = v@.subrange(start as int, v@.len() as int);
    assert(d =~= unsigned(x));
    if start == v.len() {
        return false;
    }
    let mut i = start;
    while i < v.len()
        invariant
            d == v@.subrange(start as int, v@.len() as int),
            x == v@.subrange(lo as int, v@.len() as int),
            d == unsigned(x),
            start <= i <= v@.len(),
            forall|j: int| start <= j < i ==> is_digit(#[trigger] v@[j]),
        decreases v@.len() - i,
    {
        if !is_ascii_digit(v[i]) {
            assert(d[i - start] == v@[i as int]);
            assert(!is_digit(d[i - start]));
            return false;
        }
        i += 1;
    }
    assert forall|a: int| 0 <= a < d.len() implies is_digit(#[trigger] d[a]) by {
        assert(d[a] == v@[start + a]);
    }
    true
}

/// Whether the characters from `lo` on are a decimal.
fn decimal_from(v: &Vec<char>, lo: usize) -> (r: bool)
    requires
        lo <= v@.len(),
    ensures
        r == is_decimal(v@.subrange(lo as int, v@.len() as int)),
{
    let ghost s = v@.subrange(lo as int, v@.len() as int);
    let mut k = lo;
    while k < v.len() && !is_exp_mark_char(v[k])
        invariant
            lo <= k <= v@.len(),
            forall|j: int| lo <= j < k ==> !is_exp_mark(#[trigger] v@[j]),
        decreases v@.len() - k,
    {
        k += 1;
    }
    if k == v.len() {
        let r = mantissa_in(v, lo, k);
        assert forall|a: int| 0 <= a < s.len() implies !is_exp_mark(#[trigger] s[a]) by {
            assert(s[a] == v@[lo + a]);
        }
        assert(v@.subrange(lo as int, k as int) == s);
        if !r {
            assert forall|q: int| 0 <= q < s.len() && is_exp_mark(#[trigger] s[q]) implies !(
            is_mantissa(s.subrange(0, q)) && is_exponent_digits(s.subrange(q + 1, s.len() as int)))
                by {
                assert(s[q] == v@[lo + q]);
            }
        }
        return r;
    }
    let ghost kk = (k - lo) as int;
    assert(s[kk] == v@[k as int]);
    let a = mantissa_in(v, lo, k);
    let b = exponent_digits_from(v, k + 1);
    assert(s.subrange(0, kk) =~= v@.subrange(lo as int, k as int));
    assert(s.subrange(kk + 1, s.len() as int) =~= v@.subrange(k + 1, v@.len() as int));
    if a && b {
        return true;
    }
    assert forall|q: int| 0 <= q < s.len() && is_exp_mark(#[trigger] s[q]) implies !(is_mantissa(
        s.subrange(0, q),
    ) && is_exponent_digits(s.subrange(q + 1, s.len() as int))) by {
        assert(s[q] == v@[lo + q]);
        if q > kk && is_mantissa(s.subrange(0, q)) {
            let m = s.subrange(0, q);
            assert(m[kk] == s[kk]);
        }
    }
    assert(!(forall|j: int| 0 <= j < s.len() ==> !is_exp_mark(#[trigger] s[j])));
    false
}

/// Whether `text` reads as a number, as `str::parse::<f64>` reads it.
pub fn reads_as_number(text: &str) -> (r: bool)
    ensures
        r == is_number_text(text@),
{
    let v = chars_of(text);
    let mut lo: usize = 0;
    if v.len() > 0 && is_sign_char(v[0]) {
        lo = 1;
    }
    let ghost body = v@.subrange(lo as int, v@.len() as int);
    assert(body =~= unsigned(v@));
    word_at(&v, lo, &vec!['i', 'n', 'f'])
        || word_at(&v, lo, &vec!['i', 'n', 'f', 'i', 'n', 'i', 't', 'y'])
        || word_at(&v, lo, &vec!['n', 'a', 'n'])
        || decimal_from(&v, lo)
}

} // verus!
