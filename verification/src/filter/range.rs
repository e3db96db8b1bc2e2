//! Range boundaries: reading the two bounds of a range as integers, or
//! keeping them as strings when neither reads as a number.
use vstd::prelude::*;
use crate::filter::number::{classify_float_text, finite_f64_text};
use crate::text::{chars_of, parse_i64, parse_int_spec};

verus! {

/// The `i64` that std's `str::parse::<i64>` reads from `s`, if any.
pub open spec fn i64_of(s: Seq<char>) -> Option<i64> {
    match parse_int_spec(s) {
        Some(v) => if i64::MIN <= v <= i64::MAX { Some(v as i64) } else { None },
        None => None,
    }
}

pub fn i64_from(s: &str) -> (r: Option<i64>)
    ensures
        r == i64_of(s@),
{
    let c = chars_of(s);
    parse_i64(c.as_slice())
}

/// Both bounds as integers, or `None` when one of them is not an `i64`.
pub fn parse_int_range(lower: &str, upper: &str) -> (r: Option<(i64, i64)>)
    ensures
        match (i64_of(lower@), i64_of(upper@)) {
            (Some(lo), Some(hi)) => r == Some((lo, hi)),
            _ => r is None,
        },
{
    let lo = match i64_from(lower) {
        Some(v) => v,
        None => return None,
    };
    let hi = match i64_from(upper) {
        Some(v) => v,
        None => return None,
    };
    Some((lo, hi))
}

/// Whether the text reads as a finite floating-point number.
pub fn is_finite_numeric_boundary(value: &str) -> (r: bool)
    ensures
        r == finite_f64_text(value@),
{
    let c = chars_of(value);
    let (_, finite) = classify_float_text(c.as_slice());
    finite
}

/// Both bounds as strings, or `None` when one of them is `*` or reads as a
/// finite number.
pub fn parse_string_range(lower: &str, upper: &str) -> (r: Option<(String, String)>)
    ensures
        r matches Some(p) ==> p.0@ == lower@ && p.1@ == upper@,
        r is None <==> (lower@ == seq!['*'] || upper@ == seq!['*']
            || finite_f64_text(lower@) || finite_f64_text(upper@)),
{
    let lc = chars_of(lower);
    let uc = chars_of(upper);
    let l_star = lc.len() == 1 && lc[0] == '*';
    let u_star = uc.len() == 1 && uc[0] == '*';
    assert(l_star == (lower@ == seq!['*'])) by {
        if lc@.len() == 1 && lc@[0] == '*' { assert(lc@ =~= seq!['*']); }
    }
    assert(u_star == (upper@ == seq!['*'])) by {
        if uc@.len() == 1 && uc@[0] == '*' { assert(uc@ =~= seq!['*']); }
    }
    if l_star || u_star {
        return None;
    }
    if is_finite_numeric_boundary(lower) || is_finite_numeric_boundary(upper) {
        return None;
    }
    Some((crate::text::string_of(lc.as_slice()), crate::text::string_of(uc.as_slice())))
}

} // verus!
