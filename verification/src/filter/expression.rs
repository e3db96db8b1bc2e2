//! Filter expressions: the tree that a rule's filter is made of, how it is
//! matched against an event, its textual representation, and its equality.
use vstd::prelude::*;
use crate::field::{dotted_name, escape_dots, join_with, views};
use crate::filter::number::{
    canonical_int, f64_is_finite, f64_is_nan, f64_key, f64_le, f64_lt, int_str_lt, parses_as_f64,
    seq_lt,
};
use crate::filter::pattern::{fancy_is_match, sigma_regex, wildcard_regex};
use crate::text::int_text;
use crate::value::{key_get, FloatNum, Json, Value};

verus! {

/// A bound of a numeric range: an integer of any size in canonical decimal
/// form together with its nearest binary64 value, or a floating-point number.
pub enum NumericBound {
    Int { digits: String, approx: u64 },
    Float(FloatNum),
}

/// A filter expression.
pub enum FilterExpressionInner {
    /// Matches always (`true`) or never (`false`).
    Always { value: bool },
    Not { child: Box<FilterExpressionInner> },
    And { children: Vec<FilterExpressionInner> },
    Or { children: Vec<FilterExpressionInner> },
    /// The field equals the string (or a list holds it, or a number or
    /// boolean prints as it).
    String { key: Vec<String>, expected: String },
    /// The field matches a wildcard pattern (`*`, `?`).
    Wildcard { key: Vec<String>, expected: String },
    /// The field matches a wildcard pattern, ignoring case.
    Sigma { key: Vec<String>, expected: String },
    Integer { key: Vec<String>, expected: i64 },
    /// The field's number lies within machine epsilon of `expected`; the
    /// binary64 values that do form the interval `near_low ..= near_high`.
    Float { key: Vec<String>, expected: FloatNum, near_low: u64, near_high: u64 },
    IntegerRange { key: Vec<String>, lower: i64, upper: i64, incl_low: bool, incl_high: bool },
    FloatRange { key: Vec<String>, lower: FloatNum, upper: FloatNum, incl_low: bool, incl_high: bool },
    NumericRange {
        key: Vec<String>,
        lower: Option<NumericBound>,
        upper: Option<NumericBound>,
        incl_low: bool,
        incl_high: bool,
    },
    StringRange {
        key: Vec<String>,
        lower: Option<String>,
        upper: Option<String>,
        incl_low: bool,
        incl_high: bool,
    },
    /// The field matches the (anchored) regular expression.
    Regex { key: Vec<String>, pattern: String },
    Exists { key: Vec<String> },
    Null { key: Vec<String> },
}

/// Mathematical model of a float: its pattern and its two texts.
pub struct FloatModel {
    pub bits: u64,
    pub json: Seq<char>,
    pub display: Seq<char>,
}

pub open spec fn float_model(f: FloatNum) -> FloatModel {
    FloatModel { bits: f.bits, json: f.json@, display: f.display@ }
}

/// Mathematical model of a [`NumericBound`].
pub enum BoundModel {
    Int { digits: Seq<char>, approx: u64 },
    Float(FloatModel),
}

pub open spec fn bound_model(b: NumericBound) -> BoundModel {
    match b {
        NumericBound::Int { digits, approx } => BoundModel::Int { digits: digits@, approx },
        NumericBound::Float(f) => BoundModel::Float(float_model(f)),
    }
}

pub open spec fn opt_bound_model(b: Option<NumericBound>) -> Option<BoundModel> {
    match b {
        Some(x) => Some(bound_model(x)),
        None => None,
    }
}

pub open spec fn opt_str_model(b: Option<String>) -> Option<Seq<char>> {
    match b {
        Some(x) => Some(x@),
        None => None,
    }
}

/// Mathematical model of a [`FilterExpressionInner`].
pub enum Expr {
    Always(bool),
    Not(Box<Expr>),
    And(Seq<Expr>),
    Or(Seq<Expr>),
    Str { key: Seq<Seq<char>>, expected: Seq<char> },
    Wildcard { key: Seq<Seq<char>>, expected: Seq<char> },
    Sigma { key: Seq<Seq<char>>, expected: Seq<char> },
    Integer { key: Seq<Seq<char>>, expected: i64 },
    Float { key: Seq<Seq<char>>, expected: FloatModel, near_low: u64, near_high: u64 },
    IntegerRange { key: Seq<Seq<char>>, lower: i64, upper: i64, incl_low: bool, incl_high: bool },
    FloatRange { key: Seq<Seq<char>>, lower: FloatModel, upper: FloatModel, incl_low: bool, incl_high: bool },
    NumericRange { key: Seq<Seq<char>>, lower: Option<BoundModel>, upper: Option<BoundModel>, incl_low: bool, incl_high: bool },
    StringRange { key: Seq<Seq<char>>, lower: Option<Seq<char>>, upper: Option<Seq<char>>, incl_low: bool, incl_high: bool },
    Regex { key: Seq<Seq<char>>, pattern: Seq<char> },
    Exists { key: Seq<Seq<char>> },
    Null { key: Seq<Seq<char>> },
}

impl FilterExpressionInner {
    pub open spec fn model(self) -> Expr
        decreases self,
    {
        match self {
            FilterExpressionInner::Always { value } => Expr::Always(value),
            FilterExpressionInner::Not { child } => Expr::Not(Box::new(child.model())),
            FilterExpressionInner::And { children } => {
                proof {
                    broadcast use vstd::std_specs::vec::axiom_vec_decreases_to_view;
                    assert(decreases_to!(children => children@));
                }
                Expr::And(expr_models(children@))
            },
            FilterExpressionInner::Or { children } => {
                proof {
                    broadcast use vstd::std_specs::vec::axiom_vec_decreases_to_view;
                    assert(decreases_to!(children => children@));
                }
                Expr::Or(expr_models(children@))
            },
            FilterExpressionInner::String { key, expected } => Expr::Str { key: views(key@), expected: expected@ },
            FilterExpressionInner::Wildcard { key, expected } => Expr::Wildcard { key: views(key@), expected: expected@ },
            FilterExpressionInner::Sigma { key, expected } => Expr::Sigma { key: views(key@), expected: expected@ },
            FilterExpressionInner::Integer { key, expected } => Expr::Integer { key: views(key@), expected },
            FilterExpressionInner::Float { key, expected, near_low, near_high } =>
                Expr::Float { key: views(key@), expected: float_model(expected), near_low, near_high },
            FilterExpressionInner::IntegerRange { key, lower, upper, incl_low, incl_high } =>
                Expr::IntegerRange { key: views(key@), lower, upper, incl_low, incl_high },
            FilterExpressionInner::FloatRange { key, lower, upper, incl_low, incl_high } =>
                Expr::FloatRange { key: views(key@), lower: float_model(lower), upper: float_model(upper), incl_low, incl_high },
            FilterExpressionInner::NumericRange { key, lower, upper, incl_low, incl_high } =>
                Expr::NumericRange { key: views(key@), lower: opt_bound_model(lower), upper: opt_bound_model(upper), incl_low, incl_high },
            FilterExpressionInner::StringRange { key, lower, upper, incl_low, incl_high } =>
                Expr::StringRange { key: views(key@), lower: opt_str_model(lower), upper: opt_str_model(upper), incl_low, incl_high },
            FilterExpressionInner::Regex { key, pattern } => Expr::Regex { key: views(key@), pattern: pattern@ },
            FilterExpressionInner::Exists { key } => Expr::Exists { key: views(key@) },
            FilterExpressionInner::Null { key } => Expr::Null { key: views(key@) },
        }
    }
}

pub open spec fn expr_models(s: Seq<FilterExpressionInner>) -> Seq<Expr>
    decreases s,
{
    if s.len() == 0 {
        Seq::empty()
    } else {
        proof {
            assert(decreases_to!(s => s[s.len() - 1]));
            assert(decreases_to!(s => s.subrange(0, s.len() - 1)));
        }
        expr_models(s.subrange(0, s.len() - 1)).push(s[s.len() - 1].model())
    }
}

pub proof fn lemma_expr_models(s: Seq<FilterExpressionInner>)
    ensures
        expr_models(s).len() == s.len(),
        forall|i: int| 0 <= i < s.len() ==> #[trigger] expr_models(s)[i] == s[i].model(),
    decreases s.len(),
{
    if s.len() > 0 {
        lemma_expr_models(s.subrange(0, s.len() - 1));
    }
}

/// Why a match could not be decided.
pub enum MatchError {
    KeyNotFound,
    TypeMismatch,
}

/// The binary64 readings of decimal texts that matching needs besides the
/// event: for each text, what `str::parse::<f64>` gives (`None` for an
/// error). The first entry for a text counts; a text without an entry reads
/// as an error.
pub struct FloatFacts {
    pub entries: Vec<(String, Option<u64>)>,
}

pub open spec fn facts_view(f: FloatFacts) -> Seq<(Seq<char>, Option<u64>)> {
    Seq::new(f.entries@.len(), |i: int| (f.entries@[i].0@, f.entries@[i].1))
}

/// The reading of `t` in the facts.
pub open spec fn fact_of(f: Seq<(Seq<char>, Option<u64>)>, t: Seq<char>) -> Option<u64>
    decreases f.len(),
{
    if f.len() == 0 {
        None
    } else if f[0].0 == t {
        f[0].1
    } else {
        fact_of(f.subrange(1, f.len() as int), t)
    }
}

/// Looks a text up in the facts.
pub fn lookup_fact(facts: &FloatFacts, t: &str) -> (r: Option<u64>)
    ensures
        r == fact_of(facts_view(*facts), t@),
{
    let ghost fv = facts_view(*facts);
    let mut i: usize = 0;
    assert(fv.subrange(0, fv.len() as int) =~= fv);
    while i < facts.entries.len()
        invariant
            i <= facts.entries@.len(),
            fv == facts_view(*facts),
            fact_of(fv, t@) == fact_of(fv.subrange(i as int, fv.len() as int), t@),
        decreases facts.entries@.len() - i,
    {
        let ghost rest = fv.subrange(i as int, fv.len() as int);
        assert(rest[0] == (facts.entries@[i as int].0@, facts.entries@[i as int].1));
        assert(rest.subrange(1, rest.len() as int) =~= fv.subrange(i + 1, fv.len() as int));
        if crate::value::str_eq(facts.entries[i].0.as_str(), t) {
            return facts.entries[i].1;
        }
        i = i + 1;
    }
    None
}

// ---------------------------------------------------------------------------
// Looking up the key
// ---------------------------------------------------------------------------

/// The value under a key path, through objects only: an empty path is a
/// missing key, a non-object on the way a type mismatch.
pub open spec fn json_lookup(d: Json, key: Seq<Seq<char>>) -> Result<Json, MatchError> {
    if key.len() == 0 { Err(MatchError::KeyNotFound) } else { json_walk(d, key) }
}

pub open spec fn json_walk(d: Json, key: Seq<Seq<char>>) -> Result<Json, MatchError>
    decreases key.len(),
{
    if key.len() == 0 {
        Ok(d)
    } else {
        match d {
            Json::Object(e) => match key_get(e, key[0]) {
                Some(c) => json_walk(c, key.subrange(1, key.len() as int)),
                None => Err(MatchError::KeyNotFound),
            },
            _ => Err(MatchError::TypeMismatch),
        }
    }
}

pub open spec fn opt_ref_model(r: Result<&Value, MatchError>) -> Result<Json, MatchError> {
    match r {
        Ok(v) => Ok(v.model()),
        Err(e) => Err(e),
    }
}

fn get_json_value<'a>(key: &[String], document: &'a Value) -> (r: Result<&'a Value, MatchError>)
    ensures
        opt_ref_model(r) == json_lookup(document.model(), views(key@)),
{
    if key.len() == 0 {
        return Err(MatchError::KeyNotFound);
    }
    let ghost p = views(key@);
    let mut current: &Value = document;
    let mut i: usize = 0;
    assert(p.subrange(0, p.len() as int) == p);
    while i < key.len()
        invariant
            i <= key@.len(),
            p == views(key@),
            json_walk(document.model(), p) == json_walk(current.model(), p.subrange(i as int, p.len() as int)),
        decreases key@.len() - i,
    {
        let ghost q = p.subrange(i as int, p.len() as int);
        assert(q.subrange(1, q.len() as int) == p.subrange(i + 1, p.len() as int));
        assert(q[0] == key@[i as int]@);
        match current {
            Value::Object(map) => {
                proof {
                    crate::value::lemma_entry_models(map@);
                    crate::value::lemma_key_index(crate::value::entry_models(map@), key@[i as int]@);
                }
                match crate::value::find_entry(map, key[i].as_str()) {
                    Some(k) => {
                        current = &map[k].1;
                    },
                    None => {
                        return Err(MatchError::KeyNotFound);
                    },
                }
            },
            _ => {
                return Err(MatchError::TypeMismatch);
            },
        }
        i = i + 1;
    }
    Ok(current)
}

// ---------------------------------------------------------------------------
// Numbers
// ---------------------------------------------------------------------------

/// `2^n`.
pub open spec fn pow2(n: nat) -> int
    decreases n,
{
    if n == 0 { 1 } else { 2 * pow2((n - 1) as nat) }
}

/// The value `as i64` gives for a binary64 pattern: the value truncated
/// toward zero, saturated at the bounds of `i64`, and 0 for NaN.
pub open spec fn f64_to_i64(b: u64) -> int {
    let neg = b as int >= 0x8000_0000_0000_0000;
    let ef = crate::filter::number::f64_exponent_field(b);
    let fr = crate::filter::number::f64_fraction_field(b);
    let mag: int = if ef == 0 {
        0
    } else if ef == 0x7ff {
        if fr != 0 { 0 } else { 0x8000_0000_0000_0000 }
    } else {
        let m = fr + 0x10_0000_0000_0000;
        if ef >= 1075 {
            m * pow2((ef - 1075) as nat)
        } else {
            m / pow2((1075 - ef) as nat)
        }
    };
    if neg {
        if mag >= 0x8000_0000_0000_0000 { i64::MIN as int } else { -mag }
    } else {
        if mag >= 0x8000_0000_0000_0000 { i64::MAX as int } else { mag }
    }
}

pub proof fn lemma_pow2_pos(n: nat)
    ensures
        pow2(n) >= 1,
    decreases n,
{
    if n > 0 {
        lemma_pow2_pos((n - 1) as nat);
    }
}

pub proof fn lemma_pow2_mono(a: nat, b: nat)
    requires
        a <= b,
    ensures
        pow2(a) <= pow2(b),
    decreases b,
{
    if a < b {
        lemma_pow2_mono(a, (b - 1) as nat);
        lemma_pow2_pos((b - 1) as nat);
    }
}

/// `b as i64` for the binary64 value with pattern `b`.
#[verifier::spinoff_prover]
#[verifier::rlimit(50)]
pub fn f64_bits_to_i64(b: u64) -> (r: i64)
    ensures
        r as int == f64_to_i64(b),
{
    let neg = b >= 0x8000_0000_0000_0000;
    let ef = (b / 0x10_0000_0000_0000) % 0x800;
    let fr = b % 0x10_0000_0000_0000;
    let big: u64 = 0x8000_0000_0000_0000;
    let mag: u64 = if ef == 0 {
        0
    } else if ef == 0x7ff {
        if fr != 0 { 0 } else { big }
    } else {
        let m = fr + 0x10_0000_0000_0000;
        if ef >= 1075 {
            if ef - 1075 >= 11 {
                proof {
                    lemma_pow2_mono(11, (ef - 1075) as nat);
                    reveal_with_fuel(pow2, 12);
                    assert(pow2(11) == 2048);
                    assert(m * pow2((ef - 1075) as nat) >= 0x10_0000_0000_0000 * 2048) by (nonlinear_arith)
                        requires m >= 0x10_0000_0000_0000, pow2((ef - 1075) as nat) >= 2048;
                }
                big
            } else {
                let mut v: u64 = m;
                let mut k: u64 = 0;
                while k < ef - 1075
                    invariant
                        k <= ef - 1075 <= 10,
                        m < 0x20_0000_0000_0000,
                        v == m * pow2(k as nat),
                        v <= m * 1024,
                    decreases ef - 1075 - k,
                {
                    proof {
                        lemma_pow2_mono((k + 1) as nat, 10);
                        reveal_with_fuel(pow2, 11);
                        assert(pow2(10) == 1024);
                        assert(m * pow2((k + 1) as nat) <= m * 1024) by (nonlinear_arith)
                            requires pow2((k + 1) as nat) <= 1024, m >= 0;
                        assert(m * pow2((k + 1) as nat) == 2 * (m * pow2(k as nat))) by (nonlinear_arith)
                            requires pow2((k + 1) as nat) == 2 * pow2(k as nat);
                    }
                    v = v * 2;
                    k = k + 1;
                }
                v
            }
        } else {
            if 1075 - ef >= 64 {
                proof {
                    lemma_pow2_mono(64, (1075 - ef) as nat);
                    reveal_with_fuel(pow2, 65);
                    assert(pow2(64) == 0x1_0000_0000_0000_0000);
                    assert((m as int) / pow2((1075 - ef) as nat) == 0) by (nonlinear_arith)
                        requires 0 <= m < 0x1_0000_0000_0000_0000, pow2((1075 - ef) as nat) >= 0x1_0000_0000_0000_0000;
                }
                0
            } else {
                let mut v: u64 = m;
                let mut k: u64 = 0;
                while k < 1075 - ef
                    invariant
                        k <= 1075 - ef,
                        v as int == m as int / pow2(k as nat),
                    decreases 1075 - ef - k,
                {
                    proof {
                        lemma_pow2_pos(k as nat);
                        vstd::arithmetic::div_mod::lemma_div_denominator(m as int, pow2(k as nat), 2);
                        assert(pow2(k as nat) * 2 == pow2((k + 1) as nat));
                    }
                    v = v / 2;
                    k = k + 1;
                }
                v
            }
        }
    };
    if neg {
        if mag >= big { i64::MIN } else { -(mag as i64) }
    } else {
        if mag >= big { i64::MAX } else { mag as i64 }
    }
}

/// A document number as a binary64 pattern: floats carry their pattern,
/// integers read through the facts by their decimal text.
pub open spec fn number_f64(v: Json, facts: Seq<(Seq<char>, Option<u64>)>) -> Option<u64> {
    match v {
        Json::Float(b, _, _) => Some(b),
        Json::Int(i) => fact_of(facts, int_text(i as int)),
        _ => None,
    }
}

/// A numeric range bound as read for comparison: `(is_int, digits, binary64)`.
pub open spec fn bound_view(b: BoundModel) -> (bool, Seq<char>, Option<u64>) {
    match b {
        BoundModel::Int { digits, approx } => (true, digits, Some(approx)),
        BoundModel::Float(f) => (false, Seq::empty(), Some(f.bits)),
    }
}

/// The numeric reading of a document value for a numeric range: integers by
/// their text, floats by their pattern, strings as a canonical integer or
/// else as a finite float through the facts.
pub open spec fn numeric_of(v: Json, facts: Seq<(Seq<char>, Option<u64>)>) -> Option<(bool, Seq<char>, Option<u64>)> {
    match v {
        Json::Int(i) => Some((true, int_text(i as int), fact_of(facts, int_text(i as int)))),
        Json::Float(b, _, _) => Some((false, Seq::empty(), Some(b))),
        Json::Str(s) => match canonical_int(s) {
            Some(c) => Some((true, c, fact_of(facts, s))),
            None => match fact_of(facts, s) {
                Some(b) => if f64_is_finite(b) { Some((false, Seq::empty(), Some(b))) } else { None },
                None => None,
            },
        },
        _ => None,
    }
}

/// Three-way comparison of two numeric readings: exactly for two integers,
/// else by binary64 value, where an unordered pair (NaN) counts as equal.
/// Returns -1, 0 or 1.
pub open spec fn numeric_order(a: (bool, Seq<char>, Option<u64>), b: (bool, Seq<char>, Option<u64>)) -> int {
    if a.0 && b.0 {
        if int_str_lt(a.1, b.1) { -1 } else if int_str_lt(b.1, a.1) { 1 } else { 0 }
    } else {
        match (a.2, b.2) {
            (Some(x), Some(y)) => if f64_lt(x, y) { -1 } else if f64_lt(y, x) { 1 } else { 0 },
            _ => 0,
        }
    }
}

/// The text `format_float` gives for a float: its display form, with `.0`
/// appended when that has no `.`, `e` or `E`.
pub open spec fn float_text(display: Seq<char>) -> Seq<char> {
    if display.contains('.') || display.contains('e') || display.contains('E') {
        display
    } else {
        display + seq!['.', '0']
    }
}

/// The string a string range compares: strings as they are, integers in
/// decimal, floats as [`float_text`].
pub open spec fn range_string_of(v: Json) -> Option<Seq<char>> {
    match v {
        Json::Str(s) => Some(s),
        Json::Int(i) => Some(int_text(i as int)),
        Json::Float(_, _, d) => Some(float_text(d)),
        _ => None,
    }
}

pub open spec fn bool_text(b: bool) -> Seq<char> {
    if b { seq!['t', 'r', 'u', 'e'] } else { seq!['f', 'a', 'l', 's', 'e'] }
}

/// The value is a string in which the regex finds a match.
pub open spec fn str_hit(pattern: Seq<char>, v: Json) -> bool {
    v matches Json::Str(s) && fancy_is_match(pattern, s) == Some(true)
}

/// A regex finds a match in a string value, or in a string of a list value.
pub open spec fn regex_hits(pattern: Seq<char>, v: Json) -> bool {
    match v {
        Json::Str(s) => fancy_is_match(pattern, s) == Some(true),
        Json::Array(a) => exists|i: int| 0 <= i < a.len() && #[trigger] str_hit(pattern, a[i]),
        _ => false,
    }
}

/// A string expression's test on the value found.
pub open spec fn string_hits(expected: Seq<char>, v: Json) -> bool {
    match v {
        Json::Str(s) => s == expected,
        Json::Array(a) => exists|i: int| 0 <= i < a.len() && a[i] == Json::Str(expected),
        Json::Int(i) => int_text(i as int) == expected,
        Json::Float(_, j, _) => j == expected,
        Json::Bool(b) => bool_text(b) == expected,
        _ => false,
    }
}

pub open spec fn low_ok(incl: bool, lo_lt: bool, lo_eq: bool) -> bool {
    if incl { lo_lt || lo_eq } else { lo_lt }
}

// ---------------------------------------------------------------------------
// Matching
// ---------------------------------------------------------------------------

/// What matching `e` against the document `d` gives.
pub open spec fn expr_match(e: Expr, d: Json, facts: Seq<(Seq<char>, Option<u64>)>) -> Result<bool, MatchError>
    decreases e, 0int,
{
    match e {
        Expr::Always(value) => Ok(value),
        Expr::Not(child) => Ok(!expr_matches(*child, d, facts)),
        Expr::And(children) => {
            Ok(all_match(children, d, facts))
        },
        Expr::Or(children) => {
            Ok(any_match(children, d, facts))
        },
        _ => leaf_match(e, d, facts),
    }
}

/// Matching that treats an undecided match as no match.
pub open spec fn expr_matches(e: Expr, d: Json, facts: Seq<(Seq<char>, Option<u64>)>) -> bool
    decreases e, 1int,
{
    expr_match(e, d, facts) == Ok::<bool, MatchError>(true)
}

/// Law: the safe match (`matches`) is the fallible one (`does_match`)
/// with an undecided match (a missing key, a type mismatch) taken as no
/// match.
pub proof fn lemma_matches_is_decided_match(e: Expr, d: Json, facts: Seq<(Seq<char>, Option<u64>)>)
    ensures
        expr_matches(e, d, facts) == (expr_match(e, d, facts) matches Ok(true)),
        expr_match(e, d, facts) is Err ==> !expr_matches(e, d, facts),
{
}

/// Every expression of `s` matches.
pub open spec fn all_match(s: Seq<Expr>, d: Json, facts: Seq<(Seq<char>, Option<u64>)>) -> bool
    decreases s, 0int,
{
    if s.len() == 0 {
        true
    } else {
        proof {
            assert(decreases_to!(s => s[s.len() - 1]));
            assert(decreases_to!(s => s.subrange(0, s.len() - 1)));
        }
        all_match(s.subrange(0, s.len() - 1), d, facts) && expr_matches(s[s.len() - 1], d, facts)
    }
}

/// Some expression of `s` matches.
pub open spec fn any_match(s: Seq<Expr>, d: Json, facts: Seq<(Seq<char>, Option<u64>)>) -> bool
    decreases s, 0int,
{
    if s.len() == 0 {
        false
    } else {
        proof {
            assert(decreases_to!(s => s[s.len() - 1]));
            assert(decreases_to!(s => s.subrange(0, s.len() - 1)));
        }
        any_match(s.subrange(0, s.len() - 1), d, facts) || expr_matches(s[s.len() - 1], d, facts)
    }
}

/// Matching of the expressions that test one field.
pub open spec fn leaf_match(e: Expr, d: Json, facts: Seq<(Seq<char>, Option<u64>)>) -> Result<bool, MatchError> {
    match e {
        Expr::Exists { key } => Ok(json_lookup(d, key) is Ok),
        _ => match json_lookup(d, leaf_key(e)) {
            Err(err) => Err(err),
            Ok(v) => Ok(value_test(e, v, facts)),
        },
    }
}

/// The key of an expression that tests a field (empty for the others).
pub open spec fn leaf_key(e: Expr) -> Seq<Seq<char>> {
    match e {
        Expr::Str { key, .. } => key,
        Expr::Wildcard { key, .. } => key,
        Expr::Sigma { key, .. } => key,
        Expr::Integer { key, .. } => key,
        Expr::Float { key, .. } => key,
        Expr::IntegerRange { key, .. } => key,
        Expr::FloatRange { key, .. } => key,
        Expr::NumericRange { key, .. } => key,
        Expr::StringRange { key, .. } => key,
        Expr::Regex { key, .. } => key,
        Expr::Exists { key } => key,
        Expr::Null { key } => key,
        _ => Seq::empty(),
    }
}

/// A field test applied to the value found at its key.
pub open spec fn value_test(e: Expr, v: Json, facts: Seq<(Seq<char>, Option<u64>)>) -> bool {
    match e {
        Expr::Str { expected, .. } => string_hits(expected, v),
        Expr::Wildcard { expected, .. } => regex_hits(wildcard_regex(expected), v),
        Expr::Sigma { expected, .. } => regex_hits(sigma_regex(expected), v),
        Expr::Regex { pattern, .. } => regex_hits(pattern, v),
        Expr::Integer { expected, .. } => match v {
            Json::Int(i) => i == expected,
            Json::Float(b, _, _) => f64_to_i64(b) == expected,
            _ => false,
        },
        Expr::Float { near_low, near_high, .. } => match number_f64(v, facts) {
            Some(x) => f64_le(near_low, x) && f64_le(x, near_high),
            None => false,
        },
        Expr::IntegerRange { lower, upper, incl_low, incl_high, .. } => match v {
            Json::Int(i) => (if incl_low { i >= lower } else { i > lower })
                && (if incl_high { i <= upper } else { i < upper }),
            _ => false,
        },
        Expr::FloatRange { lower, upper, incl_low, incl_high, .. } => match number_f64(v, facts) {
            Some(x) => (if incl_low { f64_le(lower.bits, x) } else { f64_lt(lower.bits, x) })
                && (if incl_high { f64_le(x, upper.bits) } else { f64_lt(x, upper.bits) }),
            None => false,
        },
        Expr::NumericRange { lower, upper, incl_low, incl_high, .. } => match numeric_of(v, facts) {
            None => false,
            Some(n) => (match lower {
                None => true,
                Some(lo) => if incl_low { numeric_order(n, bound_view(lo)) >= 0 } else { numeric_order(n, bound_view(lo)) > 0 },
            }) && (match upper {
                None => true,
                Some(hi) => if incl_high { numeric_order(n, bound_view(hi)) <= 0 } else { numeric_order(n, bound_view(hi)) < 0 },
            }),
        },
        Expr::StringRange { lower, upper, incl_low, incl_high, .. } => match range_string_of(v) {
            None => false,
            Some(s) => (match lower {
                None => true,
                Some(lo) => if incl_low { !seq_lt(s, lo) } else { seq_lt(lo, s) },
            }) && (match upper {
                None => true,
                Some(hi) => if incl_high { !seq_lt(hi, s) } else { seq_lt(s, hi) },
            }),
        },
        Expr::Null { .. } => v == Json::Null,
        _ => false,
    }
}

/// Law: an integer range admits exactly the integers between its bounds:
/// above the lower bound (or equal to it where the range includes it) and
/// below the upper bound (or equal to it where the range includes it). An
/// excluded bound is never admitted; any other kind of value is not.
pub proof fn lemma_integer_range_admits(
    key: Seq<Seq<char>>,
    lower: i64,
    upper: i64,
    incl_low: bool,
    incl_high: bool,
    v: Json,
    facts: Seq<(Seq<char>, Option<u64>)>,
)
    ensures
        ({
            let e = Expr::IntegerRange { key, lower, upper, incl_low, incl_high };
            &&& value_test(e, v, facts) == (v matches Json::Int(i)
                && (lower < i || (incl_low && i == lower))
                && (i < upper || (incl_high && i == upper)))
            &&& !incl_high ==> !value_test(e, Json::Int(upper), facts)
            &&& !incl_low ==> !value_test(e, Json::Int(lower), facts)
        }),
{
}

// ---------------------------------------------------------------------------
// Matching, executable
// ---------------------------------------------------------------------------

fn bool_chars(b: bool) -> (r: Vec<char>)
    ensures
        r@ == bool_text(b),
{
    let mut v: Vec<char> = Vec::new();
    if b {
        v.push('t'); v.push('r'); v.push('u'); v.push('e');
    } else {
        v.push('f'); v.push('a'); v.push('l'); v.push('s'); v.push('e');
    }
    assert(v@ =~= bool_text(b));
    v
}

fn chars_eq(a: &[char], b: &[char]) -> (r: bool)
    ensures
        r == (a@ == b@),
{
    if a.len() != b.len() {
        return false;
    }
    let mut i: usize = 0;
    while i < a.len()
        invariant
            i <= a@.len(),
            a@.len() == b@.len(),
            forall|j: int| 0 <= j < i ==> a@[j] == b@[j],
        decreases a@.len() - i,
    {
        if a[i] != b[i] {
            return false;
        }
        i = i + 1;
    }
    assert(a@ =~= b@);
    true
}

fn string_hits_exec(expected: &String, v: &Value) -> (r: bool)
    ensures
        r == string_hits(expected@, v.model()),
{
    match v {
        Value::Str(s) => crate::value::str_eq(s.as_str(), expected.as_str()),
        Value::Array(arr) => {
            proof { crate::value::lemma_models(arr@); }
            let mut i: usize = 0;
            while i < arr.len()
                invariant
                    i <= arr@.len(),
                    v.model() == Json::Array(crate::value::models(arr@)),
                    crate::value::models(arr@).len() == arr@.len(),
                    forall|j: int| 0 <= j < arr@.len() ==> #[trigger] crate::value::models(arr@)[j] == arr@[j].model(),
                    forall|j: int| 0 <= j < i ==> crate::value::models(arr@)[j] != Json::Str(expected@),
                decreases arr@.len() - i,
            {
                match &arr[i] {
                    Value::Str(x) => {
                        if crate::value::str_eq(x.as_str(), expected.as_str()) {
                            assert(crate::value::models(arr@)[i as int] == Json::Str(expected@));
                            return true;
                        }
                    },
                    _ => {},
                }
                i = i + 1;
            }
            false
        },
        Value::Int(i) => {
            let t = crate::text::int_to_chars(*i);
            let e = crate::text::chars_of(expected.as_str());
            chars_eq(t.as_slice(), e.as_slice())
        },
        Value::Float(f) => crate::value::str_eq(f.json.as_str(), expected.as_str()),
        Value::Bool(b) => {
            let t = bool_chars(*b);
            let e = crate::text::chars_of(expected.as_str());
            chars_eq(t.as_slice(), e.as_slice())
        },
        _ => false,
    }
}

pub proof fn lemma_regex_hits_at(p: Seq<char>, a: Seq<Json>, i: int)
    requires
        0 <= i < a.len(),
        str_hit(p, a[i]),
    ensures
        regex_hits(p, Json::Array(a)),
{
    assert(exists|k: int| 0 <= k < a.len() && #[trigger] str_hit(p, a[k]));
    let v = Json::Array(a);
    assert(v matches Json::Array(b) && b == a);
    assert(regex_hits(p, v) == (exists|k: int| 0 <= k < a.len() && #[trigger] str_hit(p, a[k])));
}

#[verifier::loop_isolation(false)]
fn regex_hits_exec(pattern: &str, v: &Value) -> (r: bool)
    ensures
        r == regex_hits(pattern@, v.model()),
{
    match v {
        Value::Str(s) => crate::filter::pattern::fancy_regex_is_match(pattern, s.as_str()) == Some(true),
        Value::Array(arr) => {
            proof { crate::value::lemma_models(arr@); }
            let mut i: usize = 0;
            while i < arr.len()
                invariant
                    i <= arr@.len(),
                    v.model() == Json::Array(crate::value::models(arr@)),
                    crate::value::models(arr@).len() == arr@.len(),
                    forall|j: int| 0 <= j < arr@.len() ==> #[trigger] crate::value::models(arr@)[j] == arr@[j].model(),
                    forall|j: int| 0 <= j < i ==> !str_hit(pattern@, #[trigger] crate::value::models(arr@)[j]),
                decreases arr@.len() - i,
            {
                match &arr[i] {
                    Value::Str(x) => {
                        if crate::filter::pattern::fancy_regex_is_match(pattern, x.as_str()) == Some(true) {
                            assert(crate::value::models(arr@)[i as int] == Json::Str(x@));
                            assert(str_hit(pattern@, crate::value::models(arr@)[i as int]));
                            proof { lemma_regex_hits_at(pattern@, crate::value::models(arr@), i as int); }
                            return true;
                        }
                    },
                    _ => {},
                }
                i = i + 1;
            }
            false
        },
        _ => false,
    }
}

fn number_f64_exec(v: &Value, facts: &FloatFacts) -> (r: Option<u64>)
    ensures
        r == number_f64(v.model(), facts_view(*facts)),
{
    match v {
        Value::Float(f) => Some(f.bits),
        Value::Int(i) => {
            let t = crate::text::string_of(crate::text::int_to_chars(*i).as_slice());
            lookup_fact(facts, t.as_str())
        },
        _ => None,
    }
}

/// A numeric reading held for comparison.
struct NumericReading {
    is_int: bool,
    digits: Vec<char>,
    approx: Option<u64>,
}

spec fn reading_view(n: NumericReading) -> (bool, Seq<char>, Option<u64>) {
    (n.is_int, n.digits@, n.approx)
}

fn numeric_of_exec(v: &Value, facts: &FloatFacts) -> (r: Option<NumericReading>)
    ensures
        match r {
            Some(n) => numeric_of(v.model(), facts_view(*facts)) == Some(reading_view(n)),
            None => numeric_of(v.model(), facts_view(*facts)) is None,
        },
{
    match v {
        Value::Int(i) => {
            let digits = crate::text::int_to_chars(*i);
            let t = crate::text::string_of(digits.as_slice());
            let approx = lookup_fact(facts, t.as_str());
            Some(NumericReading { is_int: true, digits, approx })
        },
        Value::Float(f) => Some(NumericReading { is_int: false, digits: Vec::new(), approx: Some(f.bits) }),
        Value::Str(s) => {
            let sc = crate::text::chars_of(s.as_str());
            match crate::filter::number::canonicalize_int_str(sc.as_slice()) {
                Some(c) => {
                    let approx = lookup_fact(facts, s.as_str());
                    Some(NumericReading { is_int: true, digits: c, approx })
                },
                None => match lookup_fact(facts, s.as_str()) {
                    Some(b) => if crate::filter::number::is_finite_bits(b) {
                        Some(NumericReading { is_int: false, digits: Vec::new(), approx: Some(b) })
                    } else {
                        None
                    },
                    None => None,
                },
            }
        },
        _ => None,
    }
}

fn bound_reading(b: &NumericBound) -> (r: NumericReading)
    ensures
        reading_view(r) == bound_view(bound_model(*b)),
{
    match b {
        NumericBound::Int { digits, approx } => NumericReading {
            is_int: true,
            digits: crate::text::chars_of(digits.as_str()),
            approx: Some(*approx),
        },
        NumericBound::Float(f) => NumericReading { is_int: false, digits: Vec::new(), approx: Some(f.bits) },
    }
}

fn numeric_order_exec(a: &NumericReading, b: &NumericReading) -> (r: i8)
    ensures
        r as int == numeric_order(reading_view(*a), reading_view(*b)),
{
    if a.is_int && b.is_int {
        match crate::filter::number::compare_int_strings(a.digits.as_slice(), b.digits.as_slice()) {
            crate::filter::number::Order::Less => -1,
            crate::filter::number::Order::Greater => 1,
            crate::filter::number::Order::Equal => 0,
        }
    } else {
        match (a.approx, b.approx) {
            (Some(x), Some(y)) => if crate::filter::number::bits_lt(x, y) {
                -1
            } else if crate::filter::number::bits_lt(y, x) {
                1
            } else {
                0
            },
            _ => 0,
        }
    }
}

/// The text `format_float` gives for a float with the given display form.
pub fn format_float(display: &str) -> (r: Vec<char>)
    ensures
        r@ == float_text(display@),
{
    let mut d = crate::text::chars_of(display);
    if crate::text::contains_char(d.as_slice(), '.') || crate::text::contains_char(d.as_slice(), 'e')
        || crate::text::contains_char(d.as_slice(), 'E') {
        d
    } else {
        d.push('.');
        d.push('0');
        assert(d@ =~= display@ + seq!['.', '0']);
        d
    }
}

fn range_string_of_exec(v: &Value) -> (r: Option<Vec<char>>)
    ensures
        match r {
            Some(s) => range_string_of(v.model()) == Some(s@),
            None => range_string_of(v.model()) is None,
        },
{
    match v {
        Value::Str(s) => Some(crate::text::chars_of(s.as_str())),
        Value::Int(i) => Some(crate::text::int_to_chars(*i)),
        Value::Float(f) => Some(format_float(f.display.as_str())),
        _ => None,
    }
}

impl FilterExpressionInner {
    /// Matches the document, treating a missing key or a type mismatch on
    /// the way to it as no match.
    pub fn matches(&self, document: &Value, facts: &FloatFacts) -> (r: bool)
        ensures
            r == expr_matches(self.model(), document.model(), facts_view(*facts)),
        decreases self, 1int,
    {
        match self.does_match(document, facts) {
            Ok(b) => b,
            Err(_) => false,
        }
    }

    /// Matches the document; fails when the tested key is missing or the way
    /// to it passes through a value that is not an object.
    #[verifier::loop_isolation(false)]
    pub fn does_match(&self, document: &Value, facts: &FloatFacts) -> (r: Result<bool, MatchError>)
        ensures
            r == expr_match(self.model(), document.model(), facts_view(*facts)),
        decreases self, 0int,
    {
        match self {
            FilterExpressionInner::Always { value } => Ok(*value),
            FilterExpressionInner::Not { child } => Ok(!child.matches(document, facts)),
            FilterExpressionInner::And { children } => {
                let mut acc = true;
                let mut i: usize = 0;
                proof { lemma_expr_models(children@); }
                while i < children.len()
                    invariant
                        i <= children@.len(),
                        acc == all_match(expr_models(children@).subrange(0, i as int), document.model(), facts_view(*facts)),
                        expr_models(children@).len() == children@.len(),
                        forall|j: int| 0 <= j < children@.len() ==> #[trigger] expr_models(children@)[j] == children@[j].model(),
                    decreases children@.len() - i,
                {
                    proof {
                        vstd::std_specs::vec::axiom_vec_index_decreases(*children, i as int);
                        assert(decreases_to!(*self => self->And_children));
                        assert(decreases_to!(*self => children[i as int]));
                        let ms = expr_models(children@);
                        assert(ms.subrange(0, i + 1).subrange(0, i as int) =~= ms.subrange(0, i as int));
                    }
                    let m = children[i].matches(document, facts);
                    acc = acc && m;
                    i = i + 1;
                }
                assert(expr_models(children@).subrange(0, children@.len() as int) =~= expr_models(children@));
                Ok(acc)
            },
            FilterExpressionInner::Or { children } => {
                let mut acc = false;
                let mut i: usize = 0;
                proof { lemma_expr_models(children@); }
                while i < children.len()
                    invariant
                        i <= children@.len(),
                        acc == any_match(expr_models(children@).subrange(0, i as int), document.model(), facts_view(*facts)),
                        expr_models(children@).len() == children@.len(),
                        forall|j: int| 0 <= j < children@.len() ==> #[trigger] expr_models(children@)[j] == children@[j].model(),
                    decreases children@.len() - i,
                {
                    proof {
                        vstd::std_specs::vec::axiom_vec_index_decreases(*children, i as int);
                        assert(decreases_to!(*self => self->Or_children));
                        assert(decreases_to!(*self => children[i as int]));
                        let ms = expr_models(children@);
                        assert(ms.subrange(0, i + 1).subrange(0, i as int) =~= ms.subrange(0, i as int));
                    }
                    let m = children[i].matches(document, facts);
                    acc = acc || m;
                    i = i + 1;
                }
                assert(expr_models(children@).subrange(0, children@.len() as int) =~= expr_models(children@));
                Ok(acc)
            },
            FilterExpressionInner::Exists { key } => Ok(get_json_value(key.as_slice(), document).is_ok()),
            _ => {
                let key = self.key_ref();
                match get_json_value(key.as_slice(), document) {
                    Err(e) => Err(e),
                    Ok(v) => Ok(self.value_test_exec(v, facts)),
                }
            },
        }
    }

    /// The key of a field-testing expression.
    fn key_ref(&self) -> (r: &Vec<String>)
        requires
            !(self is Always || self is Not || self is And || self is Or),
        ensures
            views(r@) == leaf_key(self.model()),
    {
        match self {
            FilterExpressionInner::String { key, .. } => key,
            FilterExpressionInner::Wildcard { key, .. } => key,
            FilterExpressionInner::Sigma { key, .. } => key,
            FilterExpressionInner::Integer { key, .. } => key,
            FilterExpressionInner::Float { key, .. } => key,
            FilterExpressionInner::IntegerRange { key, .. } => key,
            FilterExpressionInner::FloatRange { key, .. } => key,
            FilterExpressionInner::NumericRange { key, .. } => key,
            FilterExpressionInner::StringRange { key, .. } => key,
            FilterExpressionInner::Regex { key, .. } => key,
            FilterExpressionInner::Exists { key } => key,
            FilterExpressionInner::Null { key } => key,
            _ => { assert(false); unreached() },
        }
    }

    fn value_test_exec(&self, v: &Value, facts: &FloatFacts) -> (r: bool)
        ensures
            r == value_test(self.model(), v.model(), facts_view(*facts)),
    {
        match self {
            FilterExpressionInner::String { expected, .. } => string_hits_exec(expected, v),
            FilterExpressionInner::Wildcard { expected, .. } => {
                let re = crate::filter::pattern::wildcard_pattern(expected.as_str());
                regex_hits_exec(re.as_str(), v)
            },
            FilterExpressionInner::Sigma { expected, .. } => {
                let re = crate::filter::pattern::sigma_compiled_pattern(expected.as_str());
                regex_hits_exec(re.as_str(), v)
            },
            FilterExpressionInner::Regex { pattern, .. } => regex_hits_exec(pattern.as_str(), v),
            FilterExpressionInner::Integer { expected, .. } => match v {
                Value::Int(i) => *i == *expected,
                Value::Float(f) => f64_bits_to_i64(f.bits) == *expected,
                _ => false,
            },
            FilterExpressionInner::Float { near_low, near_high, .. } => match number_f64_exec(v, facts) {
                Some(x) => crate::filter::number::bits_le(*near_low, x) && crate::filter::number::bits_le(x, *near_high),
                None => false,
            },
            FilterExpressionInner::IntegerRange { lower, upper, incl_low, incl_high, .. } => match v {
                Value::Int(i) => (if *incl_low { *i >= *lower } else { *i > *lower })
                    && (if *incl_high { *i <= *upper } else { *i < *upper }),
                _ => false,
            },
            FilterExpressionInner::FloatRange { lower, upper, incl_low, incl_high, .. } => match number_f64_exec(v, facts) {
                Some(x) => (if *incl_low { crate::filter::number::bits_le(lower.bits, x) } else { crate::filter::number::bits_lt(lower.bits, x) })
                    && (if *incl_high { crate::filter::number::bits_le(x, upper.bits) } else { crate::filter::number::bits_lt(x, upper.bits) }),
                None => false,
            },
            FilterExpressionInner::NumericRange { lower, upper, incl_low, incl_high, .. } => match numeric_of_exec(v, facts) {
                None => false,
                Some(n) => {
                    let lo_ok = match lower {
                        None => true,
                        Some(lo) => {
                            let c = numeric_order_exec(&n, &bound_reading(lo));
                            if *incl_low { c >= 0 } else { c > 0 }
                        },
                    };
                    let hi_ok = match upper {
                        None => true,
                        Some(hi) => {
                            let c = numeric_order_exec(&n, &bound_reading(hi));
                            if *incl_high { c <= 0 } else { c < 0 }
                        },
                    };
                    lo_ok && hi_ok
                },
            },
            FilterExpressionInner::StringRange { lower, upper, incl_low, incl_high, .. } => match range_string_of_exec(v) {
                None => false,
                Some(sv) => {
                    let lo_ok = match lower {
                        None => true,
                        Some(lo) => {
                            let l = crate::text::chars_of(lo.as_str());
                            if *incl_low { !crate::filter::number::chars_lt(sv.as_slice(), l.as_slice()) }
                            else { crate::filter::number::chars_lt(l.as_slice(), sv.as_slice()) }
                        },
                    };
                    let hi_ok = match upper {
                        None => true,
                        Some(hi) => {
                            let h = crate::text::chars_of(hi.as_str());
                            if *incl_high { !crate::filter::number::chars_lt(h.as_slice(), sv.as_slice()) }
                            else { crate::filter::number::chars_lt(sv.as_slice(), h.as_slice()) }
                        },
                    };
                    lo_ok && hi_ok
                },
            },
            FilterExpressionInner::Null { .. } => matches!(v, Value::Null),
            _ => false,
        }
    }
}

// ---------------------------------------------------------------------------
// Representation
// ---------------------------------------------------------------------------

/// `s` without its leading `c` characters.
pub open spec fn trim_start(s: Seq<char>, c: char) -> Seq<char>
    decreases s.len(),
{
    if s.len() > 0 && s[0] == c { trim_start(s.subrange(1, s.len() as int), c) } else { s }
}

/// `s` without its trailing `c` characters.
pub open spec fn trim_end(s: Seq<char>, c: char) -> Seq<char>
    decreases s.len(),
{
    if s.len() > 0 && s.last() == c { trim_end(s.drop_last(), c) } else { s }
}

/// A dotted key with the dots inside its parts escaped.
pub open spec fn key_text(key: Seq<Seq<char>>) -> Seq<char> {
    dotted_name(key)
}

/// `key:[lower TO upper]`, with `{`/`}` for exclusive bounds.
pub open spec fn range_text(key: Seq<Seq<char>>, lo: Seq<char>, hi: Seq<char>, incl_low: bool, incl_high: bool) -> Seq<char> {
    key_text(key) + seq![':'] + (if incl_low { seq!['['] } else { seq!['{'] }) + lo
        + seq![' ', 'T', 'O', ' '] + hi + (if incl_high { seq![']'] } else { seq!['}'] })
}

/// A string range bound as written back: open as `*`, and quoted when it is
/// `*` or reads as a number.
pub open spec fn string_bound_text(b: Option<Seq<char>>) -> Seq<char> {
    match b {
        None => seq!['*'],
        Some(s) => if s == seq!['*'] || parses_as_f64(s) { seq!['"'] + s + seq!['"'] } else { s },
    }
}

pub open spec fn numeric_bound_text(b: Option<BoundModel>) -> Seq<char> {
    match b {
        None => seq!['*'],
        Some(BoundModel::Int { digits, .. }) => digits,
        Some(BoundModel::Float(f)) => float_text(f.display),
    }
}

/// The text of an expression in query syntax.
pub open spec fn expr_text(e: Expr) -> Seq<char>
    decreases e, 0int,
{
    match e {
        Expr::Always(value) => if value { seq!['*'] } else { Seq::empty() },
        Expr::Not(child) => seq!['N', 'O', 'T', ' ', '('] + expr_text(*child) + seq![')'],
        Expr::And(children) => {
            seq!['('] + texts_joined(children, seq![' ', 'A', 'N', 'D', ' ']) + seq![')']
        },
        Expr::Or(children) => {
            seq!['('] + texts_joined(children, seq![' ', 'O', 'R', ' ']) + seq![')']
        },
        Expr::Str { key, expected } => key_text(key) + seq![':', '"'] + expected + seq!['"'],
        Expr::Wildcard { key, expected } => key_text(key) + seq![':', '"'] + expected + seq!['"'],
        Expr::Sigma { key, expected } => key_text(key) + seq![':', '"'] + expected + seq!['"'],
        Expr::Integer { key, expected } => key_text(key) + seq![':'] + int_text(expected as int),
        Expr::Float { key, expected, .. } => key_text(key) + seq![':'] + float_text(expected.display),
        Expr::IntegerRange { key, lower, upper, incl_low, incl_high } =>
            range_text(key, int_text(lower as int), int_text(upper as int), incl_low, incl_high),
        Expr::FloatRange { key, lower, upper, incl_low, incl_high } =>
            range_text(key, float_text(lower.display), float_text(upper.display), incl_low, incl_high),
        Expr::NumericRange { key, lower, upper, incl_low, incl_high } =>
            range_text(key, numeric_bound_text(lower), numeric_bound_text(upper), incl_low, incl_high),
        Expr::StringRange { key, lower, upper, incl_low, incl_high } =>
            range_text(key, string_bound_text(lower), string_bound_text(upper), incl_low, incl_high),
        Expr::Regex { key, pattern } =>
            key_text(key) + seq![':', '/'] + trim_end(trim_start(pattern, '^'), '$') + seq!['/'],
        Expr::Exists { key } => key_text(key) + seq![':', ' ', '*'],
        Expr::Null { key } => key_text(key) + seq![':', 'n', 'u', 'l', 'l'],
    }
}

/// The texts of `s` joined with `sep`.
pub open spec fn texts_joined(s: Seq<Expr>, sep: Seq<char>) -> Seq<char>
    decreases s, 0int,
{
    if s.len() == 0 {
        Seq::empty()
    } else if s.len() == 1 {
        proof { assert(decreases_to!(s => s[0])); }
        expr_text(s[0])
    } else {
        proof {
            assert(decreases_to!(s => s[s.len() - 1]));
            assert(decreases_to!(s => s.subrange(0, s.len() - 1)));
        }
        texts_joined(s.subrange(0, s.len() - 1), sep) + sep + expr_text(s[s.len() - 1])
    }
}

fn push_str(out: &mut Vec<char>, s: &str)
    ensures
        final(out)@ == old(out)@ + s@,
{
    let c = crate::text::chars_of(s);
    crate::text::push_all(out, c.as_slice());
}

fn push_key_text(out: &mut Vec<char>, key: &Vec<String>)
    ensures
        final(out)@ == old(out)@ + key_text(views(key@)),
{
    let d = crate::field::field_list_to_dotted_field(key.as_slice());
    push_str(out, d.as_str());
}

fn push_range_text(out: &mut Vec<char>, key: &Vec<String>, lo: &[char], hi: &[char], incl_low: bool, incl_high: bool)
    ensures
        final(out)@ == old(out)@ + range_text(views(key@), lo@, hi@, incl_low, incl_high),
{
    let ghost start = out@;
    push_key_text(out, key);
    out.push(':');
    out.push(if incl_low { '[' } else { '{' });
    crate::text::push_all(out, lo);
    out.push(' ');
    out.push('T');
    out.push('O');
    out.push(' ');
    crate::text::push_all(out, hi);
    out.push(if incl_high { ']' } else { '}' });
    assert(out@ =~= start + range_text(views(key@), lo@, hi@, incl_low, incl_high));
}

fn string_bound_chars(b: &Option<String>) -> (r: Vec<char>)
    ensures
        r@ == string_bound_text(opt_str_model(*b)),
{
    match b {
        None => {
            let mut v: Vec<char> = Vec::new();
            v.push('*');
            assert(v@ =~= seq!['*']);
            v
        },
        Some(s) => {
            let c = crate::text::chars_of(s.as_str());
            let is_star = c.len() == 1 && c[0] == '*';
            assert(is_star == (c@ == seq!['*'])) by {
                if c@.len() == 1 && c@[0] == '*' { assert(c@ =~= seq!['*']); }
            }
            let (parses, _) = crate::filter::number::classify_float_text(c.as_slice());
            if is_star || parses {
                let mut v: Vec<char> = Vec::new();
                v.push('"');
                crate::text::push_all(&mut v, c.as_slice());
                v.push('"');
                assert(v@ =~= seq!['"'] + s@ + seq!['"']);
                v
            } else {
                c
            }
        },
    }
}

fn numeric_bound_chars(b: &Option<NumericBound>) -> (r: Vec<char>)
    ensures
        r@ == numeric_bound_text(opt_bound_model(*b)),
{
    match b {
        None => {
            let mut v: Vec<char> = Vec::new();
            v.push('*');
            assert(v@ =~= seq!['*']);
            v
        },
        Some(NumericBound::Int { digits, .. }) => crate::text::chars_of(digits.as_str()),
        Some(NumericBound::Float(f)) => format_float(f.display.as_str()),
    }
}

fn trimmed_regex(p: &str) -> (r: Vec<char>)
    ensures
        r@ == trim_end(trim_start(p@, '^'), '$'),
{
    let c = crate::text::chars_of(p);
    let n = c.len();
    let mut a: usize = 0;
    assert(c@.subrange(0, n as int) =~= c@);
    while a < n && c[a] == '^'
        invariant
            a <= n,
            n == c@.len(),
            trim_start(c@, '^') == trim_start(c@.subrange(a as int, n as int), '^'),
        decreases n - a,
    {
        let ghost t = c@.subrange(a as int, n as int);
        assert(t.subrange(1, t.len() as int) =~= c@.subrange(a + 1, n as int));
        a = a + 1;
    }
    let mut b: usize = n;
    assert(c@.subrange(a as int, n as int) =~= c@.subrange(a as int, b as int));
    while b > a && c[b - 1] == '$'
        invariant
            a <= b <= n,
            n == c@.len(),
            trim_end(trim_start(c@, '^'), '$') == trim_end(c@.subrange(a as int, b as int), '$'),
        decreases b - a,
    {
        let ghost t = c@.subrange(a as int, b as int);
        assert(t.drop_last() =~= c@.subrange(a as int, b - 1));
        b = b - 1;
    }
    let mut out: Vec<char> = Vec::new();
    let mut k = a;
    while k < b
        invariant
            a <= k <= b <= n,
            n == c@.len(),
            out@ == c@.subrange(a as int, k as int),
        decreases b - k,
    {
        out.push(c[k]);
        k = k + 1;
        assert(c@.subrange(a as int, k as int) =~= c@.subrange(a as int, k - 1).push(c@[k - 1]));
    }
    proof {
        let t = c@.subrange(a as int, b as int);
        if a < b {
            assert(t.last() == c@[b - 1]);
        }
        if a < n && a < b {
            assert(t[0] == c@[a as int]);
        }
    }
    out
}

impl FilterExpressionInner {
    /// The expression in query syntax.
    pub fn to_repr(&self) -> (r: String)
        ensures
            r@ == expr_text(self.model()),
    {
        let mut out: Vec<char> = Vec::new();
        self.write_repr(&mut out);
        crate::text::string_of(out.as_slice())
    }

    #[verifier::loop_isolation(false)]
    fn write_repr(&self, out: &mut Vec<char>)
        ensures
            final(out)@ == old(out)@ + expr_text(self.model()),
        decreases self, 0int,
    {
        let ghost start = out@;
        match self {
            FilterExpressionInner::Always { value } => {
                if *value {
                    out.push('*');
                }
                assert(out@ =~= start + expr_text(self.model()));
            },
            FilterExpressionInner::Not { child } => {
                out.push('N'); out.push('O'); out.push('T'); out.push(' '); out.push('(');
                child.write_repr(out);
                out.push(')');
                assert(out@ =~= start + expr_text(self.model()));
            },
            FilterExpressionInner::And { children } => {
                out.push('(');
                let sep: [char; 5] = [' ', 'A', 'N', 'D', ' '];
                assert(sep@ =~= seq![' ', 'A', 'N', 'D', ' ']);
                write_joined(children, &sep, out);
                out.push(')');
                assert(out@ =~= start + expr_text(self.model()));
            },
            FilterExpressionInner::Or { children } => {
                out.push('(');
                let sep: [char; 4] = [' ', 'O', 'R', ' '];
                assert(sep@ =~= seq![' ', 'O', 'R', ' ']);
                write_joined(children, &sep, out);
                out.push(')');
                assert(out@ =~= start + expr_text(self.model()));
            },
            FilterExpressionInner::String { key, expected }
            | FilterExpressionInner::Wildcard { key, expected }
            | FilterExpressionInner::Sigma { key, expected } => {
                push_key_text(out, key);
                out.push(':');
                out.push('"');
                push_str(out, expected.as_str());
                out.push('"');
                assert(out@ =~= start + expr_text(self.model()));
            },
            FilterExpressionInner::Integer { key, expected } => {
                push_key_text(out, key);
                out.push(':');
                let t = crate::text::int_to_chars(*expected);
                crate::text::push_all(out, t.as_slice());
                assert(out@ =~= start + expr_text(self.model()));
            },
            FilterExpressionInner::Float { key, expected, .. } => {
                push_key_text(out, key);
                out.push(':');
                let t = format_float(expected.display.as_str());
                crate::text::push_all(out, t.as_slice());
                assert(out@ =~= start + expr_text(self.model()));
            },
            FilterExpressionInner::IntegerRange { key, lower, upper, incl_low, incl_high } => {
                let lo = crate::text::int_to_chars(*lower);
                let hi = crate::text::int_to_chars(*upper);
                push_range_text(out, key, lo.as_slice(), hi.as_slice(), *incl_low, *incl_high);
            },
            FilterExpressionInner::FloatRange { key, lower, upper, incl_low, incl_high } => {
                let lo = format_float(lower.display.as_str());
                let hi = format_float(upper.display.as_str());
                push_range_text(out, key, lo.as_slice(), hi.as_slice(), *incl_low, *incl_high);
            },
            FilterExpressionInner::NumericRange { key, lower, upper, incl_low, incl_high } => {
                let lo = numeric_bound_chars(lower);
                let hi = numeric_bound_chars(upper);
                push_range_text(out, key, lo.as_slice(), hi.as_slice(), *incl_low, *incl_high);
            },
            FilterExpressionInner::StringRange { key, lower, upper, incl_low, incl_high } => {
                let lo = string_bound_chars(lower);
                let hi = string_bound_chars(upper);
                push_range_text(out, key, lo.as_slice(), hi.as_slice(), *incl_low, *incl_high);
            },
            FilterExpressionInner::Regex { key, pattern } => {
                push_key_text(out, key);
                out.push(':');
                out.push('/');
                let t = trimmed_regex(pattern.as_str());
                crate::text::push_all(out, t.as_slice());
                out.push('/');
                assert(out@ =~= start + expr_text(self.model()));
            },
            FilterExpressionInner::Exists { key } => {
                push_key_text(out, key);
                out.push(':');
                out.push(' ');
                out.push('*');
                assert(out@ =~= start + expr_text(self.model()));
            },
            FilterExpressionInner::Null { key } => {
                push_key_text(out, key);
                out.push(':');
                out.push('n'); out.push('u'); out.push('l'); out.push('l');
                assert(out@ =~= start + expr_text(self.model()));
            },
        }
    }
}

/// Writes the texts of `children` joined with `sep`.
#[verifier::loop_isolation(false)]
fn write_joined(children: &Vec<FilterExpressionInner>, sep: &[char], out: &mut Vec<char>)
    ensures
        final(out)@ == old(out)@ + texts_joined(expr_models(children@), sep@),
    decreases children, 0int,
{
    let ghost start = out@;
    let ghost ms = expr_models(children@);
    proof { lemma_expr_models(children@); }
    let mut i: usize = 0;
    while i < children.len()
        invariant
            i <= children@.len(),
            ms == expr_models(children@),
            ms.len() == children@.len(),
            forall|j: int| 0 <= j < children@.len() ==> #[trigger] ms[j] == children@[j].model(),
            out@ == start + texts_joined(ms.subrange(0, i as int), sep@),
        decreases children@.len() - i,
    {
        proof {
            vstd::std_specs::vec::axiom_vec_index_decreases(*children, i as int);
            let t = ms.subrange(0, i + 1);
            assert(t.subrange(0, i as int) =~= ms.subrange(0, i as int));
            assert(t[i as int] == children@[i as int].model());
        }
        if i > 0 {
            crate::text::push_all(out, sep);
        }
        children[i].write_repr(out);
        i = i + 1;
        proof {
            let t = ms.subrange(0, i as int);
            if i == 1 {
                assert(t.len() == 1);
                assert(texts_joined(ms.subrange(0, 0), sep@) =~= Seq::<char>::empty());
            }
        }
    }
    assert(ms.subrange(0, children@.len() as int) =~= ms);
}

// ---------------------------------------------------------------------------
// Equality
// ---------------------------------------------------------------------------

/// IEEE-754 `==` on two patterns.
pub open spec fn f64_eq(a: u64, b: u64) -> bool {
    !f64_is_nan(a) && !f64_is_nan(b) && f64_key(a) == f64_key(b)
}

pub open spec fn numeric_bound_eq(a: Option<BoundModel>, b: Option<BoundModel>) -> bool {
    match (a, b) {
        (None, None) => true,
        (Some(BoundModel::Int { digits: x, approx: ax }), Some(BoundModel::Int { digits: y, approx: ay })) => x == y && ax == ay,
        (Some(BoundModel::Float(x)), Some(BoundModel::Float(y))) => f64_eq(x.bits, y.bits),
        _ => false,
    }
}

pub open spec fn opt_str_eq(a: Option<Seq<char>>, b: Option<Seq<char>>) -> bool {
    match (a, b) {
        (None, None) => true,
        (Some(x), Some(y)) => x == y,
        _ => false,
    }
}

/// Equality of expressions: the same kind with equal parts, floats by IEEE
/// `==`. The binary64 readings that go with a value (the window of a float
/// test, the approximation of an integer bound) are compared too; they
/// follow from the value, so this only tells apart values that were built
/// inconsistently.
pub open spec fn expr_eq(a: Expr, b: Expr) -> bool
    decreases a, 0int,
{
    match (a, b) {
        (Expr::Always(x), Expr::Always(y)) => x == y,
        (Expr::Not(x), Expr::Not(y)) => expr_eq(*x, *y),
        (Expr::And(x), Expr::And(y)) => {
            seq_expr_eq(x, y)
        },
        (Expr::Or(x), Expr::Or(y)) => {
            seq_expr_eq(x, y)
        },
        (Expr::Str { key: k1, expected: e1 }, Expr::Str { key: k2, expected: e2 }) =>
            k1 == k2 && e1 == e2,
        (Expr::Wildcard { key: k1, expected: e1 }, Expr::Wildcard { key: k2, expected: e2 }) =>
            k1 == k2 && e1 == e2,
        (Expr::Sigma { key: k1, expected: e1 }, Expr::Sigma { key: k2, expected: e2 }) =>
            k1 == k2 && e1 == e2,
        (Expr::Integer { key: k1, expected: e1 }, Expr::Integer { key: k2, expected: e2 }) =>
            k1 == k2 && e1 == e2,
        (Expr::Float { key: k1, expected: e1, near_low: n1, near_high: h1 },
         Expr::Float { key: k2, expected: e2, near_low: n2, near_high: h2 }) =>
            k1 == k2 && f64_eq(e1.bits, e2.bits) && n1 == n2 && h1 == h2,
        (Expr::IntegerRange { key: k1, lower: l1, upper: u1, incl_low: a1, incl_high: b1 },
         Expr::IntegerRange { key: k2, lower: l2, upper: u2, incl_low: a2, incl_high: b2 }) =>
            k1 == k2 && l1 == l2 && u1 == u2 && a1 == a2 && b1 == b2,
        (Expr::FloatRange { key: k1, lower: l1, upper: u1, incl_low: a1, incl_high: b1 },
         Expr::FloatRange { key: k2, lower: l2, upper: u2, incl_low: a2, incl_high: b2 }) =>
            k1 == k2 && f64_eq(l1.bits, l2.bits) && f64_eq(u1.bits, u2.bits) && a1 == a2 && b1 == b2,
        (Expr::NumericRange { key: k1, lower: l1, upper: u1, incl_low: a1, incl_high: b1 },
         Expr::NumericRange { key: k2, lower: l2, upper: u2, incl_low: a2, incl_high: b2 }) =>
            k1 == k2 && numeric_bound_eq(l1, l2) && numeric_bound_eq(u1, u2) && a1 == a2 && b1 == b2,
        (Expr::StringRange { key: k1, lower: l1, upper: u1, incl_low: a1, incl_high: b1 },
         Expr::StringRange { key: k2, lower: l2, upper: u2, incl_low: a2, incl_high: b2 }) =>
            k1 == k2 && opt_str_eq(l1, l2) && opt_str_eq(u1, u2) && a1 == a2 && b1 == b2,
        (Expr::Regex { key: k1, pattern: p1 }, Expr::Regex { key: k2, pattern: p2 }) => k1 == k2 && p1 == p2,
        (Expr::Exists { key: k1 }, Expr::Exists { key: k2 }) => k1 == k2,
        (Expr::Null { key: k1 }, Expr::Null { key: k2 }) => k1 == k2,
        _ => false,
    }
}

/// Two sequences of expressions are equal item by item.
pub open spec fn seq_expr_eq(x: Seq<Expr>, y: Seq<Expr>) -> bool
    decreases x, 0int,
{
    if x.len() != y.len() {
        false
    } else if x.len() == 0 {
        true
    } else {
        proof {
            assert(decreases_to!(x => x[x.len() - 1]));
            assert(decreases_to!(x => x.subrange(0, x.len() - 1)));
        }
        seq_expr_eq(x.subrange(0, x.len() - 1), y.subrange(0, y.len() - 1)) && expr_eq(x[x.len() - 1], y[y.len() - 1])
    }
}

/// Equality of two string lists.
pub fn strings_equal(a: &Vec<String>, b: &Vec<String>) -> (r: bool)
    ensures
        r == (views(a@) == views(b@)),
{
    if a.len() != b.len() {
        assert(views(a@).len() != views(b@).len());
        return false;
    }
    let mut i: usize = 0;
    while i < a.len()
        invariant
            i <= a@.len(),
            a@.len() == b@.len(),
            forall|j: int| 0 <= j < i ==> a@[j]@ == b@[j]@,
        decreases a@.len() - i,
    {
        if !crate::value::str_eq(a[i].as_str(), b[i].as_str()) {
            assert(views(a@)[i as int] != views(b@)[i as int]);
            return false;
        }
        i = i + 1;
    }
    assert(views(a@) =~= views(b@));
    true
}

fn opt_string_equal(a: &Option<String>, b: &Option<String>) -> (r: bool)
    ensures
        r == opt_str_eq(opt_str_model(*a), opt_str_model(*b)),
{
    match (a, b) {
        (None, None) => true,
        (Some(x), Some(y)) => crate::value::str_eq(x.as_str(), y.as_str()),
        _ => false,
    }
}

fn bits_equal(a: u64, b: u64) -> (r: bool)
    ensures
        r == f64_eq(a, b),
{
    crate::filter::number::bits_le(a, b) && crate::filter::number::bits_le(b, a)
}

fn numeric_bound_equal(a: &Option<NumericBound>, b: &Option<NumericBound>) -> (r: bool)
    ensures
        r == numeric_bound_eq(opt_bound_model(*a), opt_bound_model(*b)),
{
    match (a, b) {
        (None, None) => true,
        (Some(NumericBound::Int { digits: x, approx: ax }), Some(NumericBound::Int { digits: y, approx: ay })) =>
            crate::value::str_eq(x.as_str(), y.as_str()) && *ax == *ay,
        (Some(NumericBound::Float(x)), Some(NumericBound::Float(y))) => bits_equal(x.bits, y.bits),
        _ => false,
    }
}

impl FilterExpressionInner {
    /// Equality as [`expr_eq`] defines it.
    #[verifier::loop_isolation(false)]
    pub fn equals(&self, other: &FilterExpressionInner) -> (r: bool)
        ensures
            r == expr_eq(self.model(), other.model()),
        decreases self, 0int,
    {
        match (self, other) {
            (FilterExpressionInner::Always { value: x }, FilterExpressionInner::Always { value: y }) => *x == *y,
            (FilterExpressionInner::Not { child: x }, FilterExpressionInner::Not { child: y }) => x.equals(y),
            (FilterExpressionInner::And { children: x }, FilterExpressionInner::And { children: y })
            | (FilterExpressionInner::Or { children: x }, FilterExpressionInner::Or { children: y }) => {
                if x.len() != y.len() {
                    proof { lemma_expr_models(x@); lemma_expr_models(y@); }
                    assert(!seq_expr_eq(expr_models(x@), expr_models(y@)));
                    return false;
                }
                let mut i: usize = 0;
                let mut acc = true;
                proof { lemma_expr_models(x@); lemma_expr_models(y@); }
                while i < x.len()
                    invariant
                        i <= x@.len(),
                        x@.len() == y@.len(),
                        expr_models(x@).len() == x@.len(),
                        expr_models(y@).len() == y@.len(),
                        forall|j: int| 0 <= j < x@.len() ==> #[trigger] expr_models(x@)[j] == x@[j].model(),
                        forall|j: int| 0 <= j < y@.len() ==> #[trigger] expr_models(y@)[j] == y@[j].model(),
                        acc == seq_expr_eq(expr_models(x@).subrange(0, i as int), expr_models(y@).subrange(0, i as int)),
                    decreases x@.len() - i,
                {
                    proof {
                        vstd::std_specs::vec::axiom_vec_index_decreases(*x, i as int);
                        let mx = expr_models(x@);
                        let my = expr_models(y@);
                        assert(mx.subrange(0, i + 1).subrange(0, i as int) =~= mx.subrange(0, i as int));
                        assert(my.subrange(0, i + 1).subrange(0, i as int) =~= my.subrange(0, i as int));
                    }
                    let e = x[i].equals(&y[i]);
                    acc = acc && e;
                    i = i + 1;
                }
                assert(expr_models(x@).subrange(0, x@.len() as int) =~= expr_models(x@));
                assert(expr_models(y@).subrange(0, y@.len() as int) =~= expr_models(y@));
                acc
            },
            (FilterExpressionInner::String { key: k1, expected: e1 }, FilterExpressionInner::String { key: k2, expected: e2 })
            | (FilterExpressionInner::Wildcard { key: k1, expected: e1 }, FilterExpressionInner::Wildcard { key: k2, expected: e2 })
            | (FilterExpressionInner::Sigma { key: k1, expected: e1 }, FilterExpressionInner::Sigma { key: k2, expected: e2 }) =>
                strings_equal(k1, k2) && crate::value::str_eq(e1.as_str(), e2.as_str()),
            (FilterExpressionInner::Integer { key: k1, expected: e1 }, FilterExpressionInner::Integer { key: k2, expected: e2 }) =>
                strings_equal(k1, k2) && *e1 == *e2,
            (FilterExpressionInner::Float { key: k1, expected: e1, near_low: n1, near_high: h1 },
             FilterExpressionInner::Float { key: k2, expected: e2, near_low: n2, near_high: h2 }) =>
                strings_equal(k1, k2) && bits_equal(e1.bits, e2.bits) && *n1 == *n2 && *h1 == *h2,
            (FilterExpressionInner::IntegerRange { key: k1, lower: l1, upper: u1, incl_low: a1, incl_high: b1 },
             FilterExpressionInner::IntegerRange { key: k2, lower: l2, upper: u2, incl_low: a2, incl_high: b2 }) =>
                strings_equal(k1, k2) && *l1 == *l2 && *u1 == *u2 && *a1 == *a2 && *b1 == *b2,
            (FilterExpressionInner::FloatRange { key: k1, lower: l1, upper: u1, incl_low: a1, incl_high: b1 },
             FilterExpressionInner::FloatRange { key: k2, lower: l2, upper: u2, incl_low: a2, incl_high: b2 }) =>
                strings_equal(k1, k2) && bits_equal(l1.bits, l2.bits) && bits_equal(u1.bits, u2.bits) && *a1 == *a2 && *b1 == *b2,
            (FilterExpressionInner::NumericRange { key: k1, lower: l1, upper: u1, incl_low: a1, incl_high: b1 },
             FilterExpressionInner::NumericRange { key: k2, lower: l2, upper: u2, incl_low: a2, incl_high: b2 }) =>
                strings_equal(k1, k2) && numeric_bound_equal(l1, l2) && numeric_bound_equal(u1, u2) && *a1 == *a2 && *b1 == *b2,
            (FilterExpressionInner::StringRange { key: k1, lower: l1, upper: u1, incl_low: a1, incl_high: b1 },
             FilterExpressionInner::StringRange { key: k2, lower: l2, upper: u2, incl_low: a2, incl_high: b2 }) =>
                strings_equal(k1, k2) && opt_string_equal(l1, l2) && opt_string_equal(u1, u2) && *a1 == *a2 && *b1 == *b2,
            (FilterExpressionInner::Regex { key: k1, pattern: p1 }, FilterExpressionInner::Regex { key: k2, pattern: p2 }) =>
                strings_equal(k1, k2) && crate::value::str_eq(p1.as_str(), p2.as_str()),
            (FilterExpressionInner::Exists { key: k1 }, FilterExpressionInner::Exists { key: k2 })
            | (FilterExpressionInner::Null { key: k1 }, FilterExpressionInner::Null { key: k2 }) => strings_equal(k1, k2),
            _ => false,
        }
    }
}

/// Law: expressions that compare equal match every document alike.
pub proof fn lemma_expr_eq_matches(a: Expr, b: Expr, d: Json, facts: Seq<(Seq<char>, Option<u64>)>)
    requires
        expr_eq(a, b),
    ensures
        expr_match(a, d, facts) == expr_match(b, d, facts),
        expr_matches(a, d, facts) == expr_matches(b, d, facts),
    decreases a, 0int,
{
    match (a, b) {
        (Expr::Not(x), Expr::Not(y)) => {
            lemma_expr_eq_matches(*x, *y, d, facts);
        },
        (Expr::And(x), Expr::And(y)) => {
            lemma_seq_expr_eq_matches(x, y, d, facts);
        },
        (Expr::Or(x), Expr::Or(y)) => {
            lemma_seq_expr_eq_matches(x, y, d, facts);
        },
        _ => {
            assert(leaf_key(a) == leaf_key(b));
            match json_lookup(d, leaf_key(a)) {
                Ok(v) => {
                    assert(value_test(a, v, facts) == value_test(b, v, facts)) by {
                        match (a, b) {
                            (Expr::NumericRange { lower: l1, upper: u1, .. }, Expr::NumericRange { lower: l2, upper: u2, .. }) => {
                                match numeric_of(v, facts) {
                                    Some(n) => {
                                        if let (Some(x1), Some(x2)) = (l1, l2) {
                                            assert(numeric_order(n, bound_view(x1)) == numeric_order(n, bound_view(x2)));
                                        }
                                        if let (Some(x1), Some(x2)) = (u1, u2) {
                                            assert(numeric_order(n, bound_view(x1)) == numeric_order(n, bound_view(x2)));
                                        }
                                    },
                                    None => {},
                                }
                            },
                            _ => {},
                        }
                    }
                },
                Err(_) => {},
            }
        },
    }
}

proof fn lemma_seq_expr_eq_matches(x: Seq<Expr>, y: Seq<Expr>, d: Json, facts: Seq<(Seq<char>, Option<u64>)>)
    requires
        seq_expr_eq(x, y),
    ensures
        all_match(x, d, facts) == all_match(y, d, facts),
        any_match(x, d, facts) == any_match(y, d, facts),
    decreases x, 0int,
{
    if x.len() > 0 {
        assert(decreases_to!(x => x[x.len() - 1]));
        assert(decreases_to!(x => x.subrange(0, x.len() - 1)));
        lemma_seq_expr_eq_matches(x.subrange(0, x.len() - 1), y.subrange(0, y.len() - 1), d, facts);
        lemma_expr_eq_matches(x[x.len() - 1], y[y.len() - 1], d, facts);
    }
}

} // verus!
