#![allow(dead_code)]

use logprep_core::value::{FloatNum, Value};

fn s(x: &str) -> Value {
    Value::Str(x.to_string())
}

fn i(x: i64) -> Value {
    Value::Int(x)
}

fn fnum(x: f64) -> FloatNum {
    FloatNum { bits: x.to_bits(), json: serde_json::to_string(&x).unwrap(), display: x.to_string() }
}

fn f(x: f64) -> Value {
    Value::Float(fnum(x))
}

fn arr(items: Vec<Value>) -> Value {
    Value::Array(items)
}

fn obj(entries: Vec<(&str, Value)>) -> Value {
    Value::Object(entries.into_iter().map(|(k, v)| (k.to_string(), v)).collect())
}

fn strs(v: &[&str]) -> Vec<String> {
    v.iter().map(|x| x.to_string()).collect()
}

/// Equality of values as JSON compares them: objects by their entries,
/// whatever their order.
fn same(a: &Value, b: &Value) -> bool {
    match (a, b) {
        (Value::Null, Value::Null) => true,
        (Value::Bool(x), Value::Bool(y)) => x == y,
        (Value::Int(x), Value::Int(y)) => x == y,
        (Value::Float(x), Value::Float(y)) => x.bits == y.bits,
        (Value::Str(x), Value::Str(y)) => x == y,
        (Value::Array(x), Value::Array(y)) => x.len() == y.len() && x.iter().zip(y.iter()).all(|(p, q)| same(p, q)),
        (Value::Object(x), Value::Object(y)) => {
            x.len() == y.len()
                && x.iter().all(|(k, v)| y.iter().any(|(k2, v2)| k == k2 && same(v, v2)))
        }
        _ => false,
    }
}

fn same_opt(a: Option<&Value>, b: Option<&Value>) -> bool {
    match (a, b) {
        (None, None) => true,
        (Some(x), Some(y)) => same(x, y),
        _ => false,
    }
}

fn member<'a>(v: &'a Value, key: &str) -> Option<&'a Value> {
    match v {
        Value::Object(e) => e.iter().find(|(k, _)| k == key).map(|(_, v)| v),
        _ => None,
    }
}

use logprep_core::filter::construct::{
    build_sigma_regex, build_wildcard_regex, filter_expression_float_range, filter_expression_integer_range,
    filter_expression_numeric_range, filter_expression_regex, filter_expression_string_range,
    filter_expression_wildcard,
};
use logprep_core::filter::expression::{FilterExpressionInner, FloatFacts, NumericBound};
use logprep_core::filter::pattern::{normalize_regex, sigma_compiled_pattern, wildcard_pattern, wildcard_pattern_string};
use logprep_core::filter::number::Order;

/// The readings of the texts in an event: strings as `str::parse::<f64>`
/// reads them, integers as their nearest binary64 value.
fn facts_for(v: &Value) -> FloatFacts {
    fn walk(v: &Value, out: &mut Vec<(String, Option<u64>)>) {
        match v {
            Value::Str(t) => out.push((t.clone(), t.parse::<f64>().ok().map(|x| x.to_bits()))),
            Value::Int(n) => out.push((n.to_string(), Some((*n as f64).to_bits()))),
            Value::Array(items) => items.iter().for_each(|x| walk(x, out)),
            Value::Object(entries) => entries.iter().for_each(|(_, x)| walk(x, out)),
            _ => {}
        }
    }
    let mut entries = Vec::new();
    walk(v, &mut entries);
    FloatFacts { entries }
}

fn order_key(x: f64) -> i64 {
    let b = x.to_bits() as i64;
    if b < 0 { i64::MIN - b } else { b }
}

fn from_key(k: i64) -> f64 {
    let b = if k < 0 { i64::MIN - k } else { k };
    f64::from_bits(b as u64)
}

/// The binary64 values `x` with `|x - e| < EPSILON`, as the bits of the
/// smallest and the largest.
fn float_window(e: f64) -> (u64, u64) {
    let near = |k: i128| (from_key(k as i64) - e).abs() < f64::EPSILON;
    let (mut lo, mut hi) = (i64::MIN as i128 + 1, order_key(e) as i128);
    while lo < hi {
        let mid = lo + (hi - lo) / 2;
        if near(mid) { hi = mid } else { lo = mid + 1 }
    }
    let low = lo;
    let (mut lo, mut hi) = (order_key(e) as i128, i64::MAX as i128);
    while lo < hi {
        let mid = lo + (hi - lo + 1) / 2;
        if near(mid) { lo = mid } else { hi = mid - 1 }
    }
    (from_key(low as i64).to_bits(), from_key(lo as i64).to_bits())
}

fn float_expr(key: &str, e: f64) -> FilterExpressionInner {
    let (near_low, near_high) = float_window(e);
    FilterExpressionInner::Float { key: vec![key.into()], expected: fnum(e), near_low, near_high }
}

fn m(expr: &FilterExpressionInner, doc: &Value) -> bool {
    expr.matches(doc, &facts_for(doc))
}

fn key(k: &[&str]) -> Vec<String> {
    strs(k)
}

#[test]
fn always_true_matches() {
    let expr = FilterExpressionInner::Always { value: true };
    assert!(m(&expr, &obj(vec![])));
}

#[test]
fn always_false_does_not_match() {
    let expr = FilterExpressionInner::Always { value: false };
    assert!(!m(&expr, &obj(vec![])));
}

#[test]
fn not_negates_child() {
    let expr = FilterExpressionInner::Not { child: Box::new(FilterExpressionInner::Always { value: false }) };
    assert!(m(&expr, &obj(vec![])));
}

#[test]
fn and_requires_all_children() {
    let expr = FilterExpressionInner::And {
        children: vec![FilterExpressionInner::Always { value: true }, FilterExpressionInner::Always { value: false }],
    };
    assert!(!m(&expr, &obj(vec![])));
}

#[test]
fn or_requires_any_child() {
    let expr = FilterExpressionInner::Or {
        children: vec![FilterExpressionInner::Always { value: false }, FilterExpressionInner::Always { value: true }],
    };
    assert!(m(&expr, &obj(vec![])));
}

#[test]
fn string_exact_match() {
    let expr = FilterExpressionInner::String { key: key(&["field"]), expected: "expected".into() };
    assert!(m(&expr, &obj(vec![("field", s("expected"))])));
}

#[test]
fn string_list_membership() {
    let expr = FilterExpressionInner::String { key: key(&["tags"]), expected: "critical".into() };
    assert!(m(&expr, &obj(vec![("tags", arr(vec![s("info"), s("critical"), s("warn")]))])));
}

#[test]
fn exists_matches_present_key() {
    let expr = FilterExpressionInner::Exists { key: key(&["foo"]) };
    assert!(m(&expr, &obj(vec![("foo", s("bar"))])));
}

#[test]
fn exists_does_not_match_missing_key() {
    let expr = FilterExpressionInner::Exists { key: key(&["missing"]) };
    assert!(!m(&expr, &obj(vec![])));
}

#[test]
fn null_matches_none_value() {
    let expr = FilterExpressionInner::Null { key: key(&["field"]) };
    assert!(m(&expr, &obj(vec![("field", Value::Null)])));
}

#[test]
fn integer_exact_match() {
    let expr = FilterExpressionInner::Integer { key: key(&["count"]), expected: 42 };
    assert!(m(&expr, &obj(vec![("count", i(42))])));
}

#[test]
fn integer_range_inclusive() {
    let expr = FilterExpressionInner::IntegerRange { key: key(&["age"]), lower: 18, upper: 65, incl_low: true, incl_high: true };
    assert!(m(&expr, &obj(vec![("age", i(25))])));
}

#[test]
fn integer_range_excludes_out_of_bounds() {
    let expr = FilterExpressionInner::IntegerRange { key: key(&["age"]), lower: 18, upper: 65, incl_low: true, incl_high: true };
    assert!(!m(&expr, &obj(vec![("age", i(10))])));
}

#[test]
fn wildcard_star_matches_any() {
    build_wildcard_regex("foo*bar").unwrap();
    let expr = FilterExpressionInner::Wildcard { key: key(&["name"]), expected: "foo*bar".into() };
    assert!(m(&expr, &obj(vec![("name", s("foobar"))])));
}

#[test]
fn wildcard_question_mark() {
    build_wildcard_regex("f?o").unwrap();
    let expr = FilterExpressionInner::Wildcard { key: key(&["name"]), expected: "f?o".into() };
    assert!(m(&expr, &obj(vec![("name", s("foo"))])));
}

#[test]
fn regex_match() {
    let expr = FilterExpressionInner::Regex { key: key(&["ip"]), pattern: "^192\\.168\\..*$".into() };
    assert!(m(&expr, &obj(vec![("ip", s("192.168.0.1"))])));
}

#[test]
fn nested_key_access() {
    let expr = FilterExpressionInner::String { key: key(&["a", "b", "c"]), expected: "deep".into() };
    assert!(m(&expr, &obj(vec![("a", obj(vec![("b", obj(vec![("c", s("deep"))]))]))])));
}

#[test]
fn missing_key_returns_false() {
    let expr = FilterExpressionInner::String { key: key(&["missing"]), expected: "x".into() };
    assert!(!m(&expr, &obj(vec![])));
}

#[test]
fn to_repr_always() {
    assert_eq!(FilterExpressionInner::Always { value: true }.to_repr(), "*");
}

#[test]
fn to_repr_string() {
    let expr = FilterExpressionInner::String { key: key(&["a", "b"]), expected: "val".into() };
    assert_eq!(expr.to_repr(), "a.b:\"val\"");
}

#[test]
fn to_repr_not() {
    let expr = FilterExpressionInner::Not { child: Box::new(FilterExpressionInner::Always { value: true }) };
    assert_eq!(expr.to_repr(), "NOT (*)");
}

#[test]
fn float_exact_match() {
    let expr = float_expr("val", 3.14);
    assert!(m(&expr, &obj(vec![("val", f(3.14))])));
}

#[test]
fn float_range_inclusive() {
    let expr = FilterExpressionInner::FloatRange {
        key: key(&["temp"]), lower: fnum(18.5), upper: fnum(25.0), incl_low: true, incl_high: true,
    };
    assert!(m(&expr, &obj(vec![("temp", f(20.0))])));
}

#[test]
fn string_range_inclusive() {
    let expr = FilterExpressionInner::StringRange {
        key: key(&["status"]), lower: Some("alpha".into()), upper: Some("zulu".into()), incl_low: true, incl_high: true,
    };
    assert!(m(&expr, &obj(vec![("status", s("beta"))])));
}

#[test]
fn exists_nested_key() {
    let expr = FilterExpressionInner::Exists { key: key(&["a", "b"]) };
    assert!(m(&expr, &obj(vec![("a", obj(vec![("b", i(42))]))])));
}

#[test]
fn null_does_not_match_non_null() {
    let expr = FilterExpressionInner::Null { key: key(&["field"]) };
    assert!(!m(&expr, &obj(vec![("field", s("not null"))])));
}

#[test]
fn and_mixed() {
    let expr = FilterExpressionInner::And {
        children: vec![
            FilterExpressionInner::String { key: key(&["a"]), expected: "1".into() },
            FilterExpressionInner::Exists { key: key(&["b"]) },
        ],
    };
    assert!(m(&expr, &obj(vec![("a", s("1")), ("b", i(42))])));
    assert!(!m(&expr, &obj(vec![("a", s("1"))])));
}

#[test]
fn or_mixed() {
    let expr = FilterExpressionInner::Or {
        children: vec![
            FilterExpressionInner::String { key: key(&["a"]), expected: "1".into() },
            FilterExpressionInner::Exists { key: key(&["b"]) },
        ],
    };
    assert!(m(&expr, &obj(vec![("b", i(42))])));
    assert!(!m(&expr, &obj(vec![])));
}

#[test]
fn integer_range_boundary_exclusive() {
    let expr = FilterExpressionInner::IntegerRange { key: key(&["age"]), lower: 18, upper: 65, incl_low: false, incl_high: false };
    assert!(!m(&expr, &obj(vec![("age", i(18))])));
    assert!(m(&expr, &obj(vec![("age", i(19))])));
}

#[test]
fn to_repr_exists() {
    assert_eq!(FilterExpressionInner::Exists { key: key(&["x", "y"]) }.to_repr(), "x.y: *");
}

#[test]
fn to_repr_null() {
    assert_eq!(FilterExpressionInner::Null { key: key(&["field"]) }.to_repr(), "field:null");
}

#[test]
fn to_repr_and() {
    let expr = FilterExpressionInner::And {
        children: vec![FilterExpressionInner::Exists { key: key(&["a"]) }, FilterExpressionInner::Exists { key: key(&["b"]) }],
    };
    assert_eq!(expr.to_repr(), "(a: * AND b: *)");
}

#[test]
fn to_repr_or() {
    let expr = FilterExpressionInner::Or {
        children: vec![FilterExpressionInner::Exists { key: key(&["a"]) }, FilterExpressionInner::Exists { key: key(&["b"]) }],
    };
    assert_eq!(expr.to_repr(), "(a: * OR b: *)");
}

#[test]
fn to_repr_integer_range() {
    let expr = FilterExpressionInner::IntegerRange { key: key(&["age"]), lower: 18, upper: 65, incl_low: true, incl_high: true };
    assert_eq!(expr.to_repr(), "age:[18 TO 65]");
}

#[test]
fn to_repr_regex() {
    let expr = FilterExpressionInner::Regex { key: key(&["ip"]), pattern: "^foo.*bar$".into() };
    assert_eq!(expr.to_repr(), "ip:/foo.*bar/");
}

#[test]
fn to_repr_float() {
    assert_eq!(float_expr("val", 3.14).to_repr(), "val:3.14");
}

#[test]
fn to_repr_integer() {
    assert_eq!(FilterExpressionInner::Integer { key: key(&["count"]), expected: 42 }.to_repr(), "count:42");
}

#[test]
fn sigma_case_insensitive() {
    build_sigma_regex("foo*bar").unwrap();
    let expr = FilterExpressionInner::Sigma { key: key(&["name"]), expected: "foo*bar".into() };
    assert!(m(&expr, &obj(vec![("name", s("FOObar"))])));
}

#[test]
fn regex_no_match() {
    let expr = FilterExpressionInner::Regex { key: key(&["field"]), pattern: "^foo$".into() };
    assert!(!m(&expr, &obj(vec![("field", s("bar"))])));
}

#[test]
fn wildcard_does_not_match_missing_key() {
    build_wildcard_regex("foo*").unwrap();
    let expr = FilterExpressionInner::Wildcard { key: key(&["missing"]), expected: "foo*".into() };
    assert!(!m(&expr, &obj(vec![])));
}

#[test]
fn string_matches_number_by_string_representation() {
    let expr = FilterExpressionInner::String { key: key(&["field"]), expected: "42".into() };
    assert!(m(&expr, &obj(vec![("field", i(42))])));
}

#[test]
fn string_matches_bool_by_string_representation() {
    let expr = FilterExpressionInner::String { key: key(&["field"]), expected: "true".into() };
    assert!(m(&expr, &obj(vec![("field", Value::Bool(true))])));
}

#[test]
fn integer_matches_float_with_same_value() {
    let expr = FilterExpressionInner::Integer { key: key(&["field"]), expected: 42 };
    assert!(m(&expr, &obj(vec![("field", f(42.0))])));
}

#[test]
fn float_matches_integer_with_same_value() {
    let expr = float_expr("field", 42.0);
    assert!(m(&expr, &obj(vec![("field", i(42))])));
}

#[test]
fn integer_range_does_not_match_float() {
    let expr = FilterExpressionInner::IntegerRange { key: key(&["field"]), lower: 0, upper: 100, incl_low: true, incl_high: true };
    assert!(!m(&expr, &obj(vec![("field", f(42.5))])));
}

#[test]
fn exists_empty_key() {
    let expr = FilterExpressionInner::Exists { key: vec![] };
    assert!(!m(&expr, &obj(vec![("foo", s("bar"))])));
}

#[test]
fn does_match_reports_missing_key_and_type_mismatch() {
    let expr = FilterExpressionInner::String { key: key(&["a", "b"]), expected: "x".into() };
    let facts = FloatFacts { entries: vec![] };
    assert!(expr.does_match(&obj(vec![]), &facts).is_err());
    assert!(expr.does_match(&obj(vec![("a", s("flat"))]), &facts).is_err());
    assert_eq!(expr.does_match(&obj(vec![("a", obj(vec![("b", s("x"))]))]), &facts).ok(), Some(true));
}

#[test]
fn numeric_range_compares_big_integers_exactly() {
    let big = |d: &str| NumericBound::Int { digits: d.into(), approx: d.parse::<f64>().unwrap().to_bits() };
    let expr = FilterExpressionInner::NumericRange {
        key: key(&["n"]),
        lower: Some(big("9007199254740993")),
        upper: None,
        incl_low: true,
        incl_high: true,
    };
    // 2^53 + 1 as a string is not below 2^53 + 1; 2^53 is, though both round to the same binary64
    assert!(m(&expr, &obj(vec![("n", s("9007199254740993"))])));
    assert!(!m(&expr, &obj(vec![("n", s("9007199254740992"))])));
    assert!(m(&expr, &obj(vec![("n", f(1e300))])));
    assert!(!m(&expr, &obj(vec![("n", s("abc"))])));
}

#[test]
fn equality_of_expressions() {
    let a = FilterExpressionInner::String { key: key(&["a"]), expected: "1".into() };
    let b = FilterExpressionInner::String { key: key(&["a"]), expected: "1".into() };
    let c = FilterExpressionInner::String { key: key(&["a"]), expected: "2".into() };
    assert!(a.equals(&b));
    assert!(!a.equals(&c));
    // regex tests are equal by their key and pattern text
    let r1 = FilterExpressionInner::Regex { key: key(&["ip"]), pattern: "^foo$".into() };
    let r2 = FilterExpressionInner::Regex { key: key(&["ip"]), pattern: "^bar$".into() };
    let r3 = FilterExpressionInner::Regex { key: key(&["ip"]), pattern: "^foo$".into() };
    assert!(!r1.equals(&r2));
    assert!(r1.equals(&r3));
    // floats compare by value: 0.0 equals -0.0
    assert!(float_expr("v", 0.0).equals(&float_expr("v", -0.0)));
}

#[test]
fn regex_normalization_anchors_the_whole_pattern() {
    assert_eq!(normalize_regex("foo"), "^foo$");
    assert_eq!(normalize_regex("^foo$"), "^foo$");
    assert_eq!(normalize_regex("(?i)foo"), "(?i)^foo$");
    assert_eq!(normalize_regex(r"a\$"), r"^a\$$");
    assert_eq!(normalize_regex(r"a\\$"), r"^a\\$");
    assert_eq!(normalize_regex("(?:ab)c"), "^(?:ab)c$");
    assert_eq!(normalize_regex("(?i:ab)"), "^(?i:ab)$");
    assert_eq!(normalize_regex("(?-i)x$"), "(?-i)^x$");
}

#[test]
fn factories_check_their_parts() {
    assert!(filter_expression_integer_range(key(&["a"]), 5, 1, true, true).is_err());
    assert!(filter_expression_integer_range(key(&["a"]), 1, 5, true, true).is_ok());
    let err = filter_expression_float_range(key(&["a"]), fnum(f64::NAN), fnum(1.0), true, true).err().unwrap();
    assert_eq!(err, "Range boundaries must be finite");
    let err = filter_expression_float_range(key(&["a"]), fnum(2.0), fnum(1.0), true, true).err().unwrap();
    assert_eq!(err, "Range lower > upper");
    assert!(filter_expression_string_range(key(&["a"]), Some("b".into()), Some("a".into()), true, true).is_err());
    assert!(filter_expression_string_range(key(&["a"]), Some("a".into()), None, true, true).is_ok());
    let two = NumericBound::Int { digits: "2".into(), approx: 2.0f64.to_bits() };
    let half = NumericBound::Float(fnum(0.5));
    assert!(matches!(two.compare(&half), Order::Greater));
    assert!(filter_expression_numeric_range(key(&["a"]), Some(two), Some(half), true, true).is_err());
    let err = filter_expression_regex(key(&["a"]), "(".into()).err().unwrap();
    assert!(err.starts_with("Invalid regex: "));
    match filter_expression_regex(key(&["a"]), "ab".into()).ok().unwrap() {
        FilterExpressionInner::Regex { pattern, .. } => assert_eq!(pattern, "^ab$"),
        _ => panic!("expected a regex test"),
    }
    assert!(filter_expression_wildcard(key(&["a"]), "a*".into()).is_ok());
}

#[test]
fn numeric_bound_texts() {
    assert_eq!(NumericBound::Int { digits: "12".into(), approx: 12.0f64.to_bits() }.to_repr(), "12");
    assert_eq!(NumericBound::Float(fnum(42.0)).to_repr(), "42.0");
    assert_eq!(NumericBound::Float(fnum(0.25)).to_repr(), "0.25");
}

#[test]
fn wildcard_patterns_turn_unescaped_wildcards_into_regex() {
    assert_eq!(wildcard_pattern_string("a*b"), "a.*b");
    assert_eq!(wildcard_pattern_string("f?o"), "f.?o");
    assert_eq!(wildcard_pattern_string("1.5"), r"1\.5");
    // an escaped wildcard stays literal, an escaped backslash before it does not
    assert_eq!(wildcard_pattern_string(r"a\*b"), r"a\*b");
    assert_eq!(wildcard_pattern_string(r"a\\*b"), r"a\\.*b");
    assert_eq!(wildcard_pattern("x*"), "^x.*$");
    assert_eq!(sigma_compiled_pattern("x?"), "(?i)^x.?$");
}
