#![allow(dead_code)]

use logprep_core::value::{FloatNum, Value};

fn s(x: &str) -> Value {
    Value::Str(x.to_string())
}

fn i(x: i64) -> Value {
    Value::Int(x)
}

fn fnum(x: f64) -> FloatNum {
    FloatNum { bits: x.to_bits(), json: serde_json::to_string(&x).unwrap(), display: x.to_string() }
}

fn f(x: f64) -> Value {
    Value::Float(fnum(x))
}

fn arr(items: Vec<Value>) -> Value {
    Value::Array(items)
}

fn obj(entries: Vec<(&str, Value)>) -> Value {
    Value::Object(entries.into_iter().map(|(k, v)| (k.to_string(), v)).collect())
}

fn strs(v: &[&str]) -> Vec<String> {
    v.iter().map(|x| x.to_string()).collect()
}

/// Equality of values as JSON compares them: objects by their entries,
/// whatever their order.
fn same(a: &Value, b: &Value) -> bool {
    match (a, b) {
        (Value::Null, Value::Null) => true,
        (Value::Bool(x), Value::Bool(y)) => x == y,
        (Value::Int(x), Value::Int(y)) => x == y,
        (Value::Float(x), Value::Float(y)) => x.bits == y.bits,
        (Value::Str(x), Value::Str(y)) => x == y,
        (Value::Array(x), Value::Array(y)) => x.len() == y.len() && x.iter().zip(y.iter()).all(|(p, q)| same(p, q)),
        (Value::Object(x), Value::Object(y)) => {
            x.len() == y.len()
                && x.iter().all(|(k, v)| y.iter().any(|(k2, v2)| k == k2 && same(v, v2)))
        }
        _ => false,
    }
}

fn same_opt(a: Option<&Value>, b: Option<&Value>) -> bool {
    match (a, b) {
        (None, None) => true,
        (Some(x), Some(y)) => same(x, y),
        _ => false,
    }
}

fn member<'a>(v: &'a Value, key: &str) -> Option<&'a Value> {
    match v {
        Value::Object(e) => e.iter().find(|(k, _)| k == key).map(|(_, v)| v),
        _ => None,
    }
}

use logprep_core::field::{
    add_and_overwrite, add_field_to, add_field_to_silent_fail, add_fields_to, append, field_list_to_dotted_field,
    get_dotted_field_list, get_dotted_field_value, get_dotted_field_value_owned, get_field_value_no_slice,
    get_source_fields_dict,
    has_dotted_field, join_dotted_fields, pop_dotted_field_value,
};
use logprep_core::render::resolve_template;

#[test]
fn get_dotted_field_list_simple() {
    assert_eq!(get_dotted_field_list("a.b.c"), vec!["a", "b", "c"]);
}

#[test]
fn get_dotted_field_list_escaped() {
    assert_eq!(get_dotted_field_list(r"dotted\.field"), vec!["dotted.field"]);
    assert_eq!(get_dotted_field_list(r"dotted\\.field"), vec![r"dotted\", "field"]);
    assert_eq!(get_dotted_field_list("simple"), vec!["simple"]);
    assert_eq!(get_dotted_field_list(r"field\\"), vec![r"field\"]);
}

#[test]
fn field_list_to_dotted_field_works() {
    assert_eq!(field_list_to_dotted_field(&strs(&["a", "b", "c"])), "a.b.c");
    assert_eq!(field_list_to_dotted_field(&strs(&["x.y", "z"])), r"x\.y.z");
}

#[test]
fn join_dotted_fields_works() {
    assert_eq!(join_dotted_fields(&strs(&["x.y", "z"])), "x.y.z");
}

#[test]
fn get_at_nested_and_array_index() {
    let event = obj(vec![("a", obj(vec![("b", arr(vec![i(10), i(20), i(30)]))])), ("c", s("x"))]);
    assert!(same_opt(get_dotted_field_value(&event, &strs(&["a", "b", "1"])), Some(&i(20))));
    assert!(same_opt(get_dotted_field_value(&event, &strs(&["a", "b", "-1"])), Some(&i(30))));
    assert!(get_dotted_field_value(&event, &strs(&["a", "missing"])).is_none());
    assert!(same_opt(get_dotted_field_value(&event, &strs(&["c"])), Some(&s("x"))));
}

#[test]
fn get_at_out_of_range_is_missing() {
    let event = obj(vec![("a", arr(vec![i(1), i(2)]))]);
    assert!(get_dotted_field_value(&event, &strs(&["a", "5"])).is_none());
    assert!(get_dotted_field_value(&event, &strs(&["a", "3"])).is_none());
}

#[test]
fn get_owned_supports_slices() {
    let event = obj(vec![("a", arr((0..6).map(i).collect()))]);
    let got = get_dotted_field_value_owned(&event, &strs(&["a", "1:4"]));
    assert!(same_opt(got.as_ref(), Some(&arr(vec![i(1), i(2), i(3)]))));
    let got = get_dotted_field_value_owned(&event, &strs(&["a", "::2"]));
    assert!(same_opt(got.as_ref(), Some(&arr(vec![i(0), i(2), i(4)]))));
    let got = get_dotted_field_value_owned(&event, &strs(&["a", "-2:"]));
    assert!(same_opt(got.as_ref(), Some(&arr(vec![i(4), i(5)]))));
    let got = get_dotted_field_value_owned(&event, &strs(&["a", "5:1:-1"]));
    assert!(same_opt(got.as_ref(), Some(&arr(vec![i(5), i(4), i(3), i(2)]))));
}

#[test]
fn has_dotted_field_none_semantics() {
    let event = obj(vec![("a", Value::Null), ("b", i(1))]);
    assert!(has_dotted_field(&event, &strs(&["a"]), true));
    assert!(!has_dotted_field(&event, &strs(&["a"]), false));
    assert!(has_dotted_field(&event, &strs(&["b"]), false));
    assert!(!has_dotted_field(&event, &strs(&["c"]), true));
}

#[test]
fn pop_dotted_field_value_simple() {
    let mut event = obj(vec![("a", obj(vec![("b", i(1)), ("c", i(2))]))]);
    let popped = pop_dotted_field_value(&mut event, &strs(&["a", "b"]), true);
    assert!(same_opt(popped.as_ref(), Some(&i(1))));
    assert!(same(&event, &obj(vec![("a", obj(vec![("c", i(2))]))])));
}

#[test]
fn pop_drops_empty_parents() {
    let mut event = obj(vec![("a", obj(vec![("b", obj(vec![("only", i(1))]))])), ("keep", s("x"))]);
    let popped = pop_dotted_field_value(&mut event, &strs(&["a", "b", "only"]), true);
    assert!(same_opt(popped.as_ref(), Some(&i(1))));
    assert!(same(&event, &obj(vec![("keep", s("x"))])));
}

#[test]
fn pop_not_drop_empty_keeps_parents() {
    let mut event = obj(vec![("a", obj(vec![("b", obj(vec![("only", i(1))]))]))]);
    let popped = pop_dotted_field_value(&mut event, &strs(&["a", "b", "only"]), false);
    assert!(same_opt(popped.as_ref(), Some(&i(1))));
    assert!(same(&event, &obj(vec![("a", obj(vec![("b", obj(vec![]))]))])));
}

#[test]
fn pop_missing_fields_return_none() {
    let mut event = obj(vec![("a", i(1))]);
    assert!(pop_dotted_field_value(&mut event, &strs(&["x", "y"]), true).is_none());
    assert!(same(&event, &obj(vec![("a", i(1))])));
}

#[test]
fn pop_from_list_is_missing() {
    let mut event = obj(vec![("a", arr(vec![i(10), i(20), i(30)]))]);
    assert!(pop_dotted_field_value(&mut event, &strs(&["a", "1"]), true).is_none());
    assert!(same(&event, &obj(vec![("a", arr(vec![i(10), i(20), i(30)]))])));
}

#[test]
fn add_field_to_creates_dotted_target() {
    let mut event = obj(vec![]);
    let parts = get_dotted_field_list("a.b.c");
    assert!(add_field_to(&mut event, &parts, &i(5), false, false).is_ok());
    assert!(same(&event, &obj(vec![("a", obj(vec![("b", obj(vec![("c", i(5))]))]))])));
}

#[test]
fn add_field_to_overwrite_scalar_parent() {
    let mut event = obj(vec![("a", s("scalar"))]);
    let parts = get_dotted_field_list("a.b");
    assert!(add_field_to(&mut event, &parts, &i(5), false, true).is_ok());
    assert!(same(&event, &obj(vec![("a", obj(vec![("b", i(5))]))])));
}

#[test]
fn add_field_to_field_exists_error() {
    let mut event = obj(vec![("a", obj(vec![("b", i(1))]))]);
    let parts = get_dotted_field_list("a.b");
    let err = add_field_to(&mut event, &parts, &i(2), false, false).err().unwrap();
    assert_eq!(err.skipped_fields, vec!["a.b".to_string()]);
    assert!(same(&event, &obj(vec![("a", obj(vec![("b", i(1))]))])));
}

#[test]
fn add_field_to_merge_lists() {
    let mut event = obj(vec![("a", obj(vec![("b", arr(vec![i(1), i(2)]))]))]);
    let parts = get_dotted_field_list("a.b");
    assert!(add_field_to(&mut event, &parts, &arr(vec![i(3), i(4)]), true, false).is_ok());
    assert!(same(&event, &obj(vec![("a", obj(vec![("b", arr(vec![i(1), i(2), i(3), i(4)]))]))])));
}

#[test]
fn add_field_to_merge_dicts() {
    let mut event = obj(vec![("a", obj(vec![("b", obj(vec![("x", i(1))]))]))]);
    let parts = get_dotted_field_list("a.b");
    assert!(add_field_to(&mut event, &parts, &obj(vec![("y", i(2))]), true, false).is_ok());
    assert!(same(&event, &obj(vec![("a", obj(vec![("b", obj(vec![("x", i(1)), ("y", i(2))]))]))])));
}

#[test]
fn add_field_to_wraps_existing_scalar_with_list_content() {
    let mut event = obj(vec![("a", obj(vec![("b", s("existing"))]))]);
    let parts = get_dotted_field_list("a.b");
    assert!(add_field_to(&mut event, &parts, &arr(vec![s("new")]), true, false).is_ok());
    assert!(same(&event, &obj(vec![("a", obj(vec![("b", arr(vec![s("existing"), s("new")]))]))])));
}

#[test]
fn add_field_to_scalar_scalar_merge_raises_warning() {
    let mut event = obj(vec![("a", obj(vec![("b", s("existing"))]))]);
    let parts = get_dotted_field_list("a.b");
    let err = add_field_to(&mut event, &parts, &s("new"), true, false).err().unwrap();
    assert_eq!(err.skipped_fields, vec!["a.b".to_string()]);
    assert!(same(&event, &obj(vec![("a", obj(vec![("b", s("existing"))]))])));
}

#[test]
fn add_fields_to_multi_field_aggregates_skipped() {
    let mut event = obj(vec![("a", i(1)), ("c", obj(vec![("nested", s("x"))]))]);
    let fields = vec![
        ("a".to_string(), i(2)),
        ("b".to_string(), i(3)),
        ("c.nested".to_string(), s("y")),
    ];
    let err = add_fields_to(&mut event, &fields, true, false, true).err().unwrap();
    assert_eq!(err.skipped_fields, vec!["a".to_string(), "c.nested".to_string()]);
    assert!(same_opt(member(&event, "b"), Some(&i(3))));
}

#[test]
fn add_fields_to_skips_none_values() {
    let mut event = obj(vec![]);
    let fields = vec![("keep".to_string(), s("v")), ("skip".to_string(), Value::Null)];
    assert!(add_fields_to(&mut event, &fields, false, false, true).is_ok());
    assert!(same(&event, &obj(vec![("keep", s("v"))])));
}

#[test]
fn add_fields_to_keeps_none_when_skip_none_false() {
    let mut event = obj(vec![]);
    let fields = vec![("a".to_string(), Value::Null)];
    assert!(add_fields_to(&mut event, &fields, false, false, false).is_ok());
    assert!(same(&event, &obj(vec![("a", Value::Null)])));
}

#[test]
fn add_field_to_silent_fail_returns_first_skipped() {
    let mut event = obj(vec![("a", i(1))]);
    let parts = get_dotted_field_list("a");
    assert_eq!(add_field_to_silent_fail(&mut event, &parts, &i(9), false, false), Some("a".to_string()));
    let parts = get_dotted_field_list("b");
    assert_eq!(add_field_to_silent_fail(&mut event, &parts, &i(9), false, false), None);
    assert!(same(&event, &obj(vec![("a", i(1)), ("b", i(9))])));
}

#[test]
fn get_source_fields_dict_maps_missing_to_none() {
    let event = obj(vec![("a", i(1))]);
    let fields = strs(&["a", "b.c"]);
    let result = get_source_fields_dict(&event, &fields);
    assert_eq!(result.len(), 2);
    assert_eq!(result[0].0, "a");
    assert!(same_opt(result[0].1, Some(&i(1))));
    assert_eq!(result[1].0, "b.c");
    assert!(result[1].1.is_none());
}

#[test]
fn resolve_template_string_mode() {
    let data = vec![("name".to_string(), s("world"))];
    assert_eq!(resolve_template("hello ${name}!", &data, false), "hello world!");
}

#[test]
fn resolve_template_json_mode() {
    let data = vec![("a".to_string(), i(3)), ("b".to_string(), s("x")), ("c".to_string(), Value::Null)];
    assert_eq!(resolve_template("${a} ${b} ${c}", &data, true), "3 \"x\" null");
}

#[test]
fn resolve_template_keeps_unknown() {
    let data: Vec<(String, Value)> = vec![("a".to_string(), i(1))];
    assert_eq!(resolve_template("${a} ${unknown}", &data, true), "1 ${unknown}");
}

#[test]
fn append_scalar_uses_separator() {
    let mut event = obj(vec![("t", s("start"))]);
    assert!(append(&mut event, &strs(&["t"]), " ", &s("end")).is_ok());
    assert!(same(&event, &obj(vec![("t", s("start end"))])));
}

#[test]
fn append_missing_target_includes_separator() {
    let mut event = obj(vec![]);
    assert!(append(&mut event, &strs(&["t"]), " ", &s("end")).is_ok());
    assert!(same(&event, &obj(vec![("t", s(" end"))])));
}

#[test]
fn append_to_list_extends() {
    let mut event = obj(vec![("t", arr(vec![s("a")]))]);
    assert!(append(&mut event, &strs(&["t"]), "", &s("b")).is_ok());
    assert!(same(&event, &obj(vec![("t", arr(vec![s("a"), s("b")]))])));
}

#[test]
fn add_and_overwrite_works() {
    let mut event = obj(vec![("a", i(1))]);
    assert!(add_and_overwrite(&mut event, &strs(&["a"]), &i(2)).is_ok());
    assert!(same(&event, &obj(vec![("a", i(2))])));
}

#[test]
fn pop_drop_empty_ignores_list_parents() {
    let mut event = obj(vec![("a", arr(vec![arr(vec![])])), ("b", i(1))]);
    let popped = pop_dotted_field_value(&mut event, &strs(&["a", "0", "0"]), true);
    assert!(popped.is_none());
    assert!(same(&event, &obj(vec![("a", arr(vec![arr(vec![])])), ("b", i(1))])));
}

#[test]
fn escaped_dot_lookup_works() {
    let event = obj(vec![("a.b", obj(vec![("c", i(1))]))]);
    let parts = get_dotted_field_list(r"a\.b.c");
    assert!(same_opt(get_dotted_field_value(&event, &parts), Some(&i(1))));
}

#[test]
fn dict_keys_with_colons_are_plain_lookups() {
    let event = obj(vec![("time:raw", i(5)), ("a", obj(vec![("b:c", s("x"))]))]);
    assert!(same_opt(get_dotted_field_value(&event, &strs(&["time:raw"])), Some(&i(5))));
    assert!(same_opt(get_dotted_field_value(&event, &strs(&["a", "b:c"])), Some(&s("x"))));
    assert!(has_dotted_field(&event, &strs(&["time:raw"]), true));
}

#[test]
fn colon_only_slices_on_arrays() {
    let event = obj(vec![("a", arr(vec![i(1), i(2), i(3)]))]);
    assert!(get_dotted_field_value(&event, &strs(&["a", "0:2"])).is_none());
}

#[test]
fn pop_missing_leaf_still_drops_empty_parents() {
    let mut event = obj(vec![("a", obj(vec![("b", obj(vec![]))])), ("keep", i(1))]);
    let popped = pop_dotted_field_value(&mut event, &strs(&["a", "b", "c"]), true);
    assert!(popped.is_none());
    assert!(same(&event, &obj(vec![("keep", i(1))])));
}

#[test]
fn no_slice_lookup_walks_objects_only() {
    let event = obj(vec![("a", obj(vec![("b", s("x"))])), ("l", arr(vec![s("first")]))]);
    assert!(same_opt(get_field_value_no_slice(&event, &strs(&["a", "b"])), Some(&s("x"))));
    assert!(same_opt(get_field_value_no_slice(&event, &strs(&[])), Some(&event)));
    assert!(get_field_value_no_slice(&event, &strs(&["a", "c"])).is_none());
    assert!(get_field_value_no_slice(&event, &strs(&["l", "0"])).is_none());
    assert!(get_field_value_no_slice(&event, &strs(&["a", "b", "c"])).is_none());
}

#[test]
fn pop_returns_what_the_lookup_read() {
    let mut event = obj(vec![("a", obj(vec![("b", i(1)), ("c", s("x"))]))]);
    let parts = strs(&["a", "b"]);
    let read = get_field_value_no_slice(&event, &parts).map(|v| v.copy());
    let popped = pop_dotted_field_value(&mut event, &parts, true);
    assert!(same_opt(popped.as_ref(), read.as_ref()));
    assert!(same_opt(popped.as_ref(), Some(&i(1))));
    assert!(get_field_value_no_slice(&event, &parts).is_none());
}

#[test]
fn popping_a_missing_field_keeps_the_event() {
    let mut event = obj(vec![("a", obj(vec![("b", i(1))])), ("l", arr(vec![obj(vec![("k", s("v"))])]))]);
    let before = event.copy();
    assert!(pop_dotted_field_value(&mut event, &strs(&["a", "z"]), false).is_none());
    assert!(pop_dotted_field_value(&mut event, &strs(&["l", "3", "k"]), false).is_none());
    assert!(same(&event, &before));
}

use logprep_core::field::{step_from_segment, Step};

#[test]
fn slice_segments_need_integer_parts() {
    assert!(matches!(step_from_segment("1:4"), Some(Step::Slice(Some(1), Some(4), 1))));
    assert!(matches!(step_from_segment("::2"), Some(Step::Slice(None, None, 2))));
    assert!(matches!(step_from_segment("-1"), Some(Step::Index(-1))));
    assert!(step_from_segment("1:2:0").is_none());
    assert!(step_from_segment("0:1:2:3").is_none());
    assert!(step_from_segment("0:2:x").is_none());
    assert!(step_from_segment("a:2").is_none());
    let event = obj(vec![("l", arr(vec![i(1), i(2), i(3)]))]);
    assert!(get_dotted_field_value_owned(&event, &strs(&["l", "0:2:x"])).is_none());
    assert!(same_opt(get_dotted_field_value_owned(&event, &strs(&["l", "0:2:"])).as_ref(), Some(&arr(vec![i(1), i(2)]))));
}

#[test]
fn plain_dotted_names_split_at_dots_and_join_back() {
    let parts = get_dotted_field_list("a.b.c");
    assert_eq!(parts, strs(&["a", "b", "c"]));
    assert_eq!(join_dotted_fields(&parts), "a.b.c");
    assert_eq!(field_list_to_dotted_field(&parts), "a.b.c");
}

#[test]
fn writing_a_field_keeps_other_top_level_keys() {
    let mut event = obj(vec![("keep", s("x")), ("a", obj(vec![]))]);
    assert!(add_field_to(&mut event, &strs(&["a", "b"]), &i(1), false, false).is_ok());
    assert!(same_opt(member(&event, "keep"), Some(&s("x"))));
    let mut blocked = obj(vec![("a", s("scalar"))]);
    assert!(add_field_to(&mut blocked, &strs(&["a", "b"]), &i(1), false, false).is_err());
}

#[test]
fn whole_slices_copy_or_reverse_the_list() {
    let event = obj(vec![("l", arr(vec![i(1), i(2), i(3)]))]);
    assert!(same_opt(get_dotted_field_value_owned(&event, &strs(&["l", "::1"])).as_ref(), Some(&arr(vec![i(1), i(2), i(3)]))));
    assert!(same_opt(get_dotted_field_value_owned(&event, &strs(&["l", "::-1"])).as_ref(), Some(&arr(vec![i(3), i(2), i(1)]))));
}
