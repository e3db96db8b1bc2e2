//! Building filter expressions from their parts, with the checks that refuse
//! bad parts: patterns that do not compile and ranges whose lower bound lies
//! above the upper one.
use vstd::prelude::*;
use crate::field::views;
use crate::filter::expression::{
    bound_model, bound_view, float_model, numeric_bound_text, numeric_order, opt_bound_model, Expr,
    FilterExpressionInner, NumericBound,
};
use crate::filter::number::{f64_is_finite, f64_lt, seq_lt, Order};
use crate::filter::pattern::{
    fancy_compile_error, fancy_regex_error, normalize_regex, normalized_regex, sigma_compiled_pattern,
    sigma_regex, wildcard_pattern, wildcard_regex,
};
use crate::text::{chars_of, push_all, string_of};
use crate::value::FloatNum;

verus! {

/// `Invalid regex: <error>`
pub open spec fn invalid_regex_message(e: Seq<char>) -> Seq<char> {
    "Invalid regex: "@ + e
}

/// `Range lower > upper`
pub open spec fn lower_above_upper() -> Seq<char> {
    "Range lower > upper"@
}

/// `Range boundaries must be finite`
pub open spec fn not_finite() -> Seq<char> {
    "Range boundaries must be finite"@
}

fn invalid_regex(e: &String) -> (r: String)
    ensures
        r@ == invalid_regex_message(e@),
{
    let mut out = chars_of("Invalid regex: ");
    push_all(&mut out, chars_of(e.as_str()).as_slice());
    string_of(out.as_slice())
}

/// The checked regular expression: `pattern` when `fancy_regex` accepts it.
fn checked(pattern: String) -> (r: Result<String, String>)
    ensures
        match fancy_compile_error(pattern@) {
            None => r matches Ok(s) && s@ == pattern@,
            Some(e) => r matches Err(m) && m@ == invalid_regex_message(e),
        },
{
    match fancy_regex_error(pattern.as_str()) {
        None => Ok(pattern),
        Some(e) => Err(invalid_regex(&e)),
    }
}

/// The anchored regex of a wildcard pattern, if it compiles.
pub fn build_wildcard_regex(pattern: &str) -> (r: Result<String, String>)
    ensures
        match fancy_compile_error(wildcard_regex(pattern@)) {
            None => r matches Ok(s) && s@ == wildcard_regex(pattern@),
            Some(e) => r matches Err(m) && m@ == invalid_regex_message(e),
        },
{
    checked(wildcard_pattern(pattern))
}

/// The case-insensitive anchored regex of a wildcard pattern, if it compiles.
pub fn build_sigma_regex(pattern: &str) -> (r: Result<String, String>)
    ensures
        match fancy_compile_error(sigma_regex(pattern@)) {
            None => r matches Ok(s) && s@ == sigma_regex(pattern@),
            Some(e) => r matches Err(m) && m@ == invalid_regex_message(e),
        },
{
    checked(sigma_compiled_pattern(pattern))
}

fn message(text: &str) -> (r: String)
    ensures
        r@ == text@,
{
    string_of(chars_of(text).as_slice())
}

impl NumericBound {
    /// Compares two bounds: two integers exactly, otherwise by their
    /// binary64 values.
    pub fn compare(&self, other: &NumericBound) -> (r: Order)
        ensures
            r is Less <==> numeric_order(bound_view(bound_model(*self)), bound_view(bound_model(*other))) < 0,
            r is Equal <==> numeric_order(bound_view(bound_model(*self)), bound_view(bound_model(*other))) == 0,
            r is Greater <==> numeric_order(bound_view(bound_model(*self)), bound_view(bound_model(*other))) > 0,
    {
        match (self, other) {
            (NumericBound::Int { digits: a, .. }, NumericBound::Int { digits: b, .. }) =>
                crate::filter::number::compare_int_strings(chars_of(a.as_str()).as_slice(), chars_of(b.as_str()).as_slice()),
            _ => {
                let x = match self {
                    NumericBound::Int { approx, .. } => *approx,
                    NumericBound::Float(f) => f.bits,
                };
                let y = match other {
                    NumericBound::Int { approx, .. } => *approx,
                    NumericBound::Float(f) => f.bits,
                };
                if crate::filter::number::bits_lt(x, y) {
                    Order::Less
                } else if crate::filter::number::bits_lt(y, x) {
                    Order::Greater
                } else {
                    Order::Equal
                }
            },
        }
    }

    /// The bound as written back: an integer's digits, a float's text.
    pub fn to_repr(&self) -> (r: String)
        ensures
            r@ == numeric_bound_text(Some(bound_model(*self))),
    {
        match self {
            NumericBound::Int { digits, .. } => digits.clone(),
            NumericBound::Float(f) => string_of(crate::filter::expression::format_float(f.display.as_str()).as_slice()),
        }
    }
}

/// A wildcard test, if its pattern compiles.
pub fn filter_expression_wildcard(key: Vec<String>, expected_value: String) -> (r: Result<FilterExpressionInner, String>)
    ensures
        match fancy_compile_error(wildcard_regex(expected_value@)) {
            None => r matches Ok(e) && e.model() == (Expr::Wildcard { key: views(key@), expected: expected_value@ }),
            Some(m) => r matches Err(s) && s@ == invalid_regex_message(m),
        },
{
    match build_wildcard_regex(expected_value.as_str()) {
        Ok(_) => Ok(FilterExpressionInner::Wildcard { key, expected: expected_value }),
        Err(m) => Err(m),
    }
}

/// A case-insensitive wildcard test, if its pattern compiles.
pub fn filter_expression_sigma(key: Vec<String>, expected_value: String) -> (r: Result<FilterExpressionInner, String>)
    ensures
        match fancy_compile_error(sigma_regex(expected_value@)) {
            None => r matches Ok(e) && e.model() == (Expr::Sigma { key: views(key@), expected: expected_value@ }),
            Some(m) => r matches Err(s) && s@ == invalid_regex_message(m),
        },
{
    match build_sigma_regex(expected_value.as_str()) {
        Ok(_) => Ok(FilterExpressionInner::Sigma { key, expected: expected_value }),
        Err(m) => Err(m),
    }
}

/// A regular-expression test, anchored, if it compiles.
pub fn filter_expression_regex(key: Vec<String>, regex_pattern: String) -> (r: Result<FilterExpressionInner, String>)
    ensures
        match fancy_compile_error(normalized_regex(regex_pattern@)) {
            None => r matches Ok(e) && e.model() == (Expr::Regex { key: views(key@), pattern: normalized_regex(regex_pattern@) }),
            Some(m) => r matches Err(s) && s@ == invalid_regex_message(m),
        },
{
    match checked(normalize_regex(regex_pattern.as_str())) {
        Ok(p) => Ok(FilterExpressionInner::Regex { key, pattern: p }),
        Err(m) => Err(m),
    }
}

/// An integer range, unless its lower bound lies above the upper one.
pub fn filter_expression_integer_range(
    key: Vec<String>,
    lower: i64,
    upper: i64,
    include_lower: bool,
    include_upper: bool,
) -> (r: Result<FilterExpressionInner, String>)
    ensures
        lower > upper ==> (r matches Err(s) && s@ == lower_above_upper()),
        lower <= upper ==> (r matches Ok(e) && e.model() == (Expr::IntegerRange {
            key: views(key@), lower, upper, incl_low: include_lower, incl_high: include_upper })),
{
    if lower > upper {
        return Err(message("Range lower > upper"));
    }
    Ok(FilterExpressionInner::IntegerRange { key, lower, upper, incl_low: include_lower, incl_high: include_upper })
}

/// A float range: both bounds finite and the lower not above the upper.
pub fn filter_expression_float_range(
    key: Vec<String>,
    lower: FloatNum,
    upper: FloatNum,
    include_lower: bool,
    include_upper: bool,
) -> (r: Result<FilterExpressionInner, String>)
    ensures
        !(f64_is_finite(lower.bits) && f64_is_finite(upper.bits)) ==> (r matches Err(s) && s@ == not_finite()),
        f64_is_finite(lower.bits) && f64_is_finite(upper.bits) && f64_lt(upper.bits, lower.bits)
            ==> (r matches Err(s) && s@ == lower_above_upper()),
        f64_is_finite(lower.bits) && f64_is_finite(upper.bits) && !f64_lt(upper.bits, lower.bits)
            ==> (r matches Ok(e) && e.model() == (Expr::FloatRange {
                key: views(key@), lower: float_model(lower), upper: float_model(upper),
                incl_low: include_lower, incl_high: include_upper })),
{
    if !crate::filter::number::is_finite_bits(lower.bits) || !crate::filter::number::is_finite_bits(upper.bits) {
        return Err(message("Range boundaries must be finite"));
    }
    if crate::filter::number::bits_lt(upper.bits, lower.bits) {
        return Err(message("Range lower > upper"));
    }
    Ok(FilterExpressionInner::FloatRange { key, lower, upper, incl_low: include_lower, incl_high: include_upper })
}

/// A numeric range over integers of any size and floats, unless both bounds
/// are given and the lower compares above the upper.
pub fn filter_expression_numeric_range(
    key: Vec<String>,
    lower: Option<NumericBound>,
    upper: Option<NumericBound>,
    include_lower: bool,
    include_upper: bool,
) -> (r: Result<FilterExpressionInner, String>)
    ensures
        ({
            let above = match (lower, upper) {
                (Some(lo), Some(hi)) => numeric_order(bound_view(bound_model(lo)), bound_view(bound_model(hi))) > 0,
                _ => false,
            };
            &&& above ==> (r matches Err(s) && s@ == lower_above_upper())
            &&& !above ==> (r matches Ok(e) && e.model() == (Expr::NumericRange {
                key: views(key@), lower: opt_bound_model(lower), upper: opt_bound_model(upper),
                incl_low: include_lower, incl_high: include_upper }))
        }),
{
    let above = match (&lower, &upper) {
        (Some(lo), Some(hi)) => match lo.compare(hi) {
            Order::Greater => true,
            _ => false,
        },
        _ => false,
    };
    if above {
        return Err(message("Range lower > upper"));
    }
    Ok(FilterExpressionInner::NumericRange { key, lower, upper, incl_low: include_lower, incl_high: include_upper })
}

/// A string range, unless both bounds are given and the lower comes after
/// the upper in `str`'s order.
pub fn filter_expression_string_range(
    key: Vec<String>,
    lower: Option<String>,
    upper: Option<String>,
    include_lower: bool,
    include_upper: bool,
) -> (r: Result<FilterExpressionInner, String>)
    ensures
        ({
            let above = match (lower, upper) {
                (Some(lo), Some(hi)) => seq_lt(hi@, lo@),
                _ => false,
            };
            &&& above ==> (r matches Err(s) && s@ == lower_above_upper())
            &&& !above ==> (r matches Ok(e) && e.model() == (Expr::StringRange {
                key: views(key@), lower: crate::filter::expression::opt_str_model(lower),
                upper: crate::filter::expression::opt_str_model(upper),
                incl_low: include_lower, incl_high: include_upper }))
        }),
{
    let above = match (&lower, &upper) {
        (Some(lo), Some(hi)) => crate::filter::number::chars_lt(chars_of(hi.as_str()).as_slice(), chars_of(lo.as_str()).as_slice()),
        _ => false,
    };
    if above {
        return Err(message("Range lower > upper"));
    }
    Ok(FilterExpressionInner::StringRange { key, lower, upper, incl_low: include_lower, incl_high: include_upper })
}

} // verus!
