#![allow(dead_code)]

use logprep_core::value::{FloatNum, Value};

fn s(x: &str) -> Value {
    Value::Str(x.to_string())
}

fn i(x: i64) -> Value {
    Value::Int(x)
}

fn fnum(x: f64) -> FloatNum {
    FloatNum { bits: x.to_bits(), json: serde_json::to_string(&x).unwrap(), display: x.to_string() }
}

fn f(x: f64) -> Value {
    Value::Float(fnum(x))
}

fn arr(items: Vec<Value>) -> Value {
    Value::Array(items)
}

fn obj(entries: Vec<(&str, Value)>) -> Value {
    Value::Object(entries.into_iter().map(|(k, v)| (k.to_string(), v)).collect())
}

fn strs(v: &[&str]) -> Vec<String> {
    v.iter().map(|x| x.to_string()).collect()
}

/// Equality of values as JSON compares them: objects by their entries,
/// whatever their order.
fn same(a: &Value, b: &Value) -> bool {
    match (a, b) {
        (Value::Null, Value::Null) => true,
        (Value::Bool(x), Value::Bool(y)) => x == y,
        (Value::Int(x), Value::Int(y)) => x == y,
        (Value::Float(x), Value::Float(y)) => x.bits == y.bits,
        (Value::Str(x), Value::Str(y)) => x == y,
        (Value::Array(x), Value::Array(y)) => x.len() == y.len() && x.iter().zip(y.iter()).all(|(p, q)| same(p, q)),
        (Value::Object(x), Value::Object(y)) => {
            x.len() == y.len()
                && x.iter().all(|(k, v)| y.iter().any(|(k2, v2)| k == k2 && same(v, v2)))
        }
        _ => false,
    }
}

fn same_opt(a: Option<&Value>, b: Option<&Value>) -> bool {
    match (a, b) {
        (None, None) => true,
        (Some(x), Some(y)) => same(x, y),
        _ => false,
    }
}

fn member<'a>(v: &'a Value, key: &str) -> Option<&'a Value> {
    match v {
        Value::Object(e) => e.iter().find(|(k, _)| k == key).map(|(_, v)| v),
        _ => None,
    }
}

use logprep_core::filter::expression::{FilterExpressionInner, FloatFacts};
use logprep_core::filter::lucene::{parse_lucene_query_inner, range_bound_texts, LuceneParseError, SpecialFields};

fn no_special() -> SpecialFields {
    SpecialFields { regex_fields: Vec::new(), sigma_fields: Vec::new(), regex_all: false, sigma_all: false }
}

/// The binary64 readings of the range bounds of a query.
fn readings(query: &str) -> Vec<(String, FloatNum)> {
    range_bound_texts(query)
        .into_iter()
        .map(|t| {
            let x = t.parse::<f64>().unwrap();
            (t, fnum(x))
        })
        .collect()
}

fn try_parse(query: &str) -> Result<FilterExpressionInner, LuceneParseError> {
    parse_lucene_query_inner(query, &no_special(), &readings(query))
}

fn parse(query: &str) -> FilterExpressionInner {
    match try_parse(query) {
        Ok(e) => e,
        Err(e) => panic!("parse error: {}", e.0),
    }
}

fn key(k: &[&str]) -> Vec<String> {
    strs(k)
}

fn facts_for(v: &Value) -> FloatFacts {
    fn walk(v: &Value, out: &mut Vec<(String, Option<u64>)>) {
        match v {
            Value::Str(t) => out.push((t.clone(), t.parse::<f64>().ok().map(|x| x.to_bits()))),
            Value::Int(n) => out.push((n.to_string(), Some((*n as f64).to_bits()))),
            Value::Array(items) => items.iter().for_each(|x| walk(x, out)),
            Value::Object(entries) => entries.iter().for_each(|(_, x)| walk(x, out)),
            _ => {}
        }
    }
    let mut entries = Vec::new();
    walk(v, &mut entries);
    FloatFacts { entries }
}

fn m(expr: &FilterExpressionInner, doc: &Value) -> bool {
    expr.matches(doc, &facts_for(doc))
}

#[test]
fn simple_string_query() {
    let expr = parse(r#"key: "value""#);
    assert!(expr.equals(&FilterExpressionInner::String { key: key(&["key"]), expected: "value".into() }));
}

#[test]
fn and_query() {
    match parse(r#"key: "value" AND key2: "value2""#) {
        FilterExpressionInner::And { children } => assert_eq!(children.len(), 2),
        _ => panic!("Expected And"),
    }
}

#[test]
fn or_query() {
    match parse(r#"key: "value" OR key2: "value2""#) {
        FilterExpressionInner::Or { children } => assert_eq!(children.len(), 2),
        _ => panic!("Expected Or"),
    }
}

#[test]
fn not_query() {
    let expected = FilterExpressionInner::Not { child: Box::new(FilterExpressionInner::Exists { key: key(&["foo"]) }) };
    assert!(parse("NOT foo").equals(&expected));
}

#[test]
fn exists_query() {
    assert!(parse("foo").equals(&FilterExpressionInner::Exists { key: key(&["foo"]) }));
}

#[test]
fn match_all() {
    assert!(parse("*").equals(&FilterExpressionInner::Always { value: true }));
}

#[test]
fn null_query() {
    assert!(parse("null_key: null").equals(&FilterExpressionInner::Null { key: key(&["null_key"]) }));
}

#[test]
fn string_not_null() {
    let expected = FilterExpressionInner::String { key: key(&["null_key"]), expected: "null".into() };
    assert!(parse(r#"null_key: "null""#).equals(&expected));
}

#[test]
fn dotted_field() {
    let expected = FilterExpressionInner::Null { key: key(&["something", "null_key"]) };
    assert!(parse("something.null_key: null").equals(&expected));
}

#[test]
fn integer_range() {
    let expected = FilterExpressionInner::IntegerRange { key: key(&["key"]), lower: 18, upper: 65, incl_low: true, incl_high: true };
    assert!(parse("key:[18 TO 65]").equals(&expected));
}

#[test]
fn float_range() {
    let expected = FilterExpressionInner::FloatRange {
        key: key(&["key"]), lower: fnum(0.1), upper: fnum(8.5), incl_low: true, incl_high: true,
    };
    assert!(parse("key:[0.1 TO 8.5]").equals(&expected));
}

#[test]
fn exclusive_range() {
    let expected = FilterExpressionInner::IntegerRange { key: key(&["key"]), lower: 18, upper: 65, incl_low: false, incl_high: false };
    assert!(parse("key:{18 TO 65}").equals(&expected));
}

#[test]
fn mixed_range() {
    let expected = FilterExpressionInner::IntegerRange { key: key(&["key"]), lower: 18, upper: 65, incl_low: true, incl_high: false };
    assert!(parse("key:[18 TO 65}").equals(&expected));
}

#[test]
fn string_range() {
    let expected = FilterExpressionInner::StringRange {
        key: key(&["key"]), lower: Some("alpha".into()), upper: Some("zulu".into()), incl_low: true, incl_high: true,
    };
    assert!(parse("key:[alpha TO zulu]").equals(&expected));
}

#[test]
fn regex_query() {
    let expr = parse(r#"regex_key: /.*value.*/"#);
    assert!(matches!(expr, FilterExpressionInner::Regex { key, .. } if key == vec!["regex_key".to_string()]));
}

#[test]
fn field_group_or() {
    match &parse(r#"key: ("value" OR "value2")"#) {
        FilterExpressionInner::Or { children } => {
            assert_eq!(children.len(), 2);
            for child in children {
                match child {
                    FilterExpressionInner::String { key, .. } => assert_eq!(key, &vec!["key".to_string()]),
                    _ => panic!("Expected String in Or"),
                }
            }
        }
        _ => panic!("Expected Or"),
    }
}

#[test]
fn escaped_field_name() {
    let expected = FilterExpressionInner::String { key: key(&["a key("]), expected: "value".into() };
    assert!(parse(r#"a\ key\(: "value""#).equals(&expected));
}

#[test]
fn negative_range_boundary() {
    let expected = FilterExpressionInner::IntegerRange { key: key(&["key"]), lower: -10, upper: -1, incl_low: true, incl_high: true };
    assert!(parse("key:[-10 TO -1]").equals(&expected));
}

#[test]
fn quoted_string_value() {
    let expected = FilterExpressionInner::String { key: key(&["key"]), expected: "hello world".into() };
    assert!(parse(r#"key: "hello world""#).equals(&expected));
}

#[test]
fn bare_word_value() {
    let expected = FilterExpressionInner::String { key: key(&["key"]), expected: "value".into() };
    assert!(parse("key: value").equals(&expected));
}

#[test]
fn paren_group() {
    let expected = FilterExpressionInner::String { key: key(&["key"]), expected: "value".into() };
    assert!(parse(r#"(key: "value")"#).equals(&expected));
}

#[test]
fn complex_query() {
    match parse(r#"(title:"foo bar" AND body:"quick fox") OR title:fox"#) {
        FilterExpressionInner::Or { children } => {
            assert_eq!(children.len(), 2);
            match &children[0] {
                FilterExpressionInner::And { children: ac } => assert_eq!(ac.len(), 2),
                _ => panic!("Expected And"),
            }
        }
        _ => panic!("Expected Or"),
    }
}

#[test]
fn field_group_with_and() {
    match &parse(r#"key: ("value1" AND "value2")"#) {
        FilterExpressionInner::And { children } => {
            assert_eq!(children.len(), 2);
            for child in children {
                match child {
                    FilterExpressionInner::String { key, .. } => assert_eq!(key, &vec!["key".to_string()]),
                    _ => panic!("Expected String in And"),
                }
            }
        }
        _ => panic!("Expected And"),
    }
}

#[test]
fn range_without_field_raises() {
    assert!(try_parse("[0 TO 10]").is_err(), "Expected error for range without field");
}

#[test]
fn open_range_raises() {
    assert!(try_parse("key:[* TO 10]").is_err(), "Expected error for open range");
}

#[test]
fn reversed_range_raises() {
    assert!(try_parse("key:[10 TO 0]").is_err(), "Expected error for reversed range");
}

#[test]
fn pipe_re_modifier() {
    let expr = parse(r#"key|re: ".*value.*""#);
    assert!(matches!(expr, FilterExpressionInner::Regex { key, .. } if key == vec!["key".to_string()]));
}

#[test]
fn test_match_string() {
    let expr = parse(r#"key: "value""#);
    assert!(m(&expr, &obj(vec![("key", s("value"))])));
    assert!(!m(&expr, &obj(vec![("key", s("wrong"))])));
    assert!(!m(&expr, &obj(vec![])));
}

#[test]
fn test_match_and() {
    let expr = parse(r#"a: "1" AND b: "2""#);
    assert!(m(&expr, &obj(vec![("a", s("1")), ("b", s("2"))])));
    assert!(!m(&expr, &obj(vec![("a", s("1"))])));
}

#[test]
fn test_match_or() {
    let expr = parse(r#"a: "1" OR b: "2""#);
    assert!(m(&expr, &obj(vec![("a", s("1"))])));
    assert!(m(&expr, &obj(vec![("b", s("2"))])));
    assert!(!m(&expr, &obj(vec![])));
}

#[test]
fn test_match_not() {
    let expr = parse("NOT foo");
    assert!(m(&expr, &obj(vec![("bar", s("1"))])));
    assert!(!m(&expr, &obj(vec![("foo", s("1"))])));
}

#[test]
fn test_match_exists() {
    let expr = parse("foo");
    assert!(m(&expr, &obj(vec![("foo", s("bar"))])));
    assert!(!m(&expr, &obj(vec![])));
}

#[test]
fn test_match_integer_range() {
    let expr = parse("age:[18 TO 65]");
    assert!(m(&expr, &obj(vec![("age", i(25))])));
    assert!(m(&expr, &obj(vec![("age", i(18))])));
    assert!(m(&expr, &obj(vec![("age", i(65))])));
    assert!(!m(&expr, &obj(vec![("age", i(10))])));
}

#[test]
fn test_match_float_range() {
    let expr = parse("temp:[0.0 TO 100.0]");
    assert!(m(&expr, &obj(vec![("temp", f(50.0))])));
    assert!(!m(&expr, &obj(vec![("temp", f(-1.0))])));
}

#[test]
fn test_match_string_range() {
    let expr = parse("name:[a TO m]");
    assert!(m(&expr, &obj(vec![("name", s("hello"))])));
    assert!(!m(&expr, &obj(vec![("name", s("world"))])));
}

#[test]
fn test_match_null() {
    let expr = parse("field: null");
    assert!(m(&expr, &obj(vec![("field", Value::Null)])));
    assert!(!m(&expr, &obj(vec![("field", s("value"))])));
}

#[test]
fn error_messages_name_the_problem() {
    let err = try_parse("key:[* TO 10]").err().unwrap();
    assert!(err.0.contains("*"));
    let err = try_parse("key: (").err().unwrap();
    assert!(!err.0.is_empty());
    let err = try_parse("key: /[/").err().unwrap();
    assert!(!err.0.is_empty());
}

#[test]
fn special_fields_turn_values_into_patterns() {
    let special = SpecialFields { regex_fields: vec!["ip".into()], sigma_fields: vec!["name".into()], regex_all: false, sigma_all: false };
    let q = r#"ip: "10\..*" AND name: "Foo*""#;
    match parse_lucene_query_inner(q, &special, &readings(q)).ok().unwrap() {
        FilterExpressionInner::And { children } => {
            assert!(matches!(&children[0], FilterExpressionInner::Regex { .. }));
            assert!(matches!(&children[1], FilterExpressionInner::Sigma { .. }));
        }
        _ => panic!("Expected And"),
    }
}

#[test]
fn range_bound_texts_lists_numeric_bounds() {
    assert_eq!(range_bound_texts("key:[0.1 TO 8.5] AND a:[x TO y]"), vec!["0.1".to_string(), "8.5".to_string()]);
}

#[test]
fn range_without_to_names_the_token_found() {
    match try_parse("key:[1 x 5]") {
        Err(e) => assert_eq!(e.0, "Expected TO, got Word { value: \"x\", raw: \"x\" }"),
        Ok(_) => panic!("a range without TO parsed"),
    }
}

use logprep_core::filter::lucene::{tokenize, Token};

#[test]
fn tokenizing_ends_with_one_eof_or_names_an_unclosed_literal() {
    let tokens = tokenize("key: value AND other:\"x\"").ok().unwrap();
    assert!(matches!(tokens.last(), Some(Token::Eof)));
    assert_eq!(tokens.iter().filter(|t| matches!(t, Token::Eof)).count(), 1);
    assert_eq!(tokenize("key: \"abc").err().unwrap().0, "Unterminated quoted string");
    assert_eq!(tokenize("key: /ab").err().unwrap().0, "Unterminated regex pattern");
}

#[test]
fn tokenizing_fails_only_where_every_closing_character_is_escaped() {
    assert!(tokenize(r#"k: "a\"b""#).is_ok());
    assert_eq!(tokenize(r#"k: "a\""#).err().unwrap().0, "Unterminated quoted string");
    assert_eq!(tokenize(r#"k: "a\"#).err().unwrap().0, "Unterminated escape in quoted string");
    assert!(tokenize(r"k: /a\/b/").is_ok());
    assert_eq!(tokenize(r"k: /a\/").err().unwrap().0, "Unterminated regex pattern");
    assert!(tokenize("k: v AND (x OR y)").is_ok());
}
