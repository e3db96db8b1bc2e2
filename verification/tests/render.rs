#![allow(dead_code)]

use logprep_core::value::{FloatNum, Value};

fn s(x: &str) -> Value {
    Value::Str(x.to_string())
}

fn i(x: i64) -> Value {
    Value::Int(x)
}

fn fnum(x: f64) -> FloatNum {
    FloatNum { bits: x.to_bits(), json: serde_json::to_string(&x).unwrap(), display: x.to_string() }
}

fn f(x: f64) -> Value {
    Value::Float(fnum(x))
}

fn arr(items: Vec<Value>) -> Value {
    Value::Array(items)
}

fn obj(entries: Vec<(&str, Value)>) -> Value {
    Value::Object(entries.into_iter().map(|(k, v)| (k.to_string(), v)).collect())
}

fn strs(v: &[&str]) -> Vec<String> {
    v.iter().map(|x| x.to_string()).collect()
}

/// Equality of values as JSON compares them: objects by their entries,
/// whatever their order.
fn same(a: &Value, b: &Value) -> bool {
    match (a, b) {
        (Value::Null, Value::Null) => true,
        (Value::Bool(x), Value::Bool(y)) => x == y,
        (Value::Int(x), Value::Int(y)) => x == y,
        (Value::Float(x), Value::Float(y)) => x.bits == y.bits,
        (Value::Str(x), Value::Str(y)) => x == y,
        (Value::Array(x), Value::Array(y)) => x.len() == y.len() && x.iter().zip(y.iter()).all(|(p, q)| same(p, q)),
        (Value::Object(x), Value::Object(y)) => {
            x.len() == y.len()
                && x.iter().all(|(k, v)| y.iter().any(|(k2, v2)| k == k2 && same(v, v2)))
        }
        _ => false,
    }
}

fn same_opt(a: Option<&Value>, b: Option<&Value>) -> bool {
    match (a, b) {
        (None, None) => true,
        (Some(x), Some(y)) => same(x, y),
        _ => false,
    }
}

fn member<'a>(v: &'a Value, key: &str) -> Option<&'a Value> {
    match v {
        Value::Object(e) => e.iter().find(|(k, _)| k == key).map(|(_, v)| v),
        _ => None,
    }
}

use logprep_core::field::{add_field_to, get_dotted_field_list, get_dotted_field_value};
use logprep_core::render::{to_json_text, value_to_python_str};
use logprep_core::sorted::{insert_all_sorted, insert_sorted};

#[test]
fn json_text_of_values() {
    let v = obj(vec![
        ("a", arr(vec![i(1), f(2.5), Value::Null, Value::Bool(true)])),
        ("b\"q", s("line\nbreak\t\u{1}")),
    ]);
    assert_eq!(to_json_text(&v), "{\"a\":[1,2.5,null,true],\"b\\\"q\":\"line\\nbreak\\t\\u0001\"}");
    assert_eq!(to_json_text(&v), serde_json::to_string(&to_serde(&v)).unwrap());
}

/// The same value as serde_json holds it (object keys here are given in
/// ascending order, the order serde_json's map keeps them in).
fn to_serde(v: &Value) -> serde_json::Value {
    match v {
        Value::Null => serde_json::Value::Null,
        Value::Bool(b) => serde_json::Value::Bool(*b),
        Value::Int(n) => serde_json::Value::Number((*n).into()),
        Value::Float(x) => serde_json::Value::Number(serde_json::Number::from_f64(f64::from_bits(x.bits)).unwrap()),
        Value::Str(t) => serde_json::Value::String(t.clone()),
        Value::Array(items) => serde_json::Value::Array(items.iter().map(to_serde).collect()),
        Value::Object(e) => {
            let mut m = serde_json::Map::new();
            for (k, x) in e {
                m.insert(k.clone(), to_serde(x));
            }
            serde_json::Value::Object(m)
        }
    }
}

#[test]
fn json_text_agrees_with_serde_json() {
    let samples = vec![
        s("\u{7f} and \u{1f} and é and \\ and \u{8} \u{c}"),
        arr(vec![]),
        obj(vec![]),
        obj(vec![("k", arr(vec![f(-0.0), f(1e-7), i(i64::MIN)]))]),
    ];
    for v in &samples {
        assert_eq!(to_json_text(v), serde_json::to_string(&to_serde(v)).unwrap());
    }
}

#[test]
fn python_text_of_values() {
    assert_eq!(value_to_python_str(&Value::Null), "None");
    assert_eq!(value_to_python_str(&Value::Bool(true)), "True");
    assert_eq!(value_to_python_str(&Value::Bool(false)), "False");
    assert_eq!(value_to_python_str(&i(-12)), "-12");
    assert_eq!(value_to_python_str(&f(1e20)), serde_json::to_string(&1e20f64).unwrap());
    assert_eq!(value_to_python_str(&s("plain")), "plain");
    assert_eq!(value_to_python_str(&arr(vec![s("x")])), "[\"x\"]");
}

#[test]
fn sorted_insertion_keeps_order_and_drops_repeats() {
    let mut v: Vec<String> = Vec::new();
    insert_sorted(&mut v, "m".into());
    insert_sorted(&mut v, "a".into());
    insert_sorted(&mut v, "m".into());
    insert_all_sorted(&mut v, &strs(&["z", "b", "a", "ä"]));
    assert_eq!(v, strs(&["a", "b", "m", "z", "ä"]));
}

#[test]
fn a_written_field_reads_back() {
    let mut event = obj(vec![("a", s("scalar")), ("b", obj(vec![]))]);
    for (name, overwrite) in [("a.x.y", true), ("b.c", false), ("new", false), ("b.d.e", true)] {
        let parts = get_dotted_field_list(name);
        assert!(add_field_to(&mut event, &parts, &i(9), false, overwrite).is_ok());
        assert!(same_opt(get_dotted_field_value(&event, &parts), Some(&i(9))));
    }
}
