#![allow(dead_code)]

use logprep_core::value::{FloatNum, Value};

fn s(x: &str) -> Value {
    Value::Str(x.to_string())
}

fn i(x: i64) -> Value {
    Value::Int(x)
}

fn fnum(x: f64) -> FloatNum {
    FloatNum { bits: x.to_bits(), json: serde_json::to_string(&x).unwrap(), display: x.to_string() }
}

fn f(x: f64) -> Value {
    Value::Float(fnum(x))
}

fn arr(items: Vec<Value>) -> Value {
    Value::Array(items)
}

fn obj(entries: Vec<(&str, Value)>) -> Value {
    Value::Object(entries.into_iter().map(|(k, v)| (k.to_string(), v)).collect())
}

fn strs(v: &[&str]) -> Vec<String> {
    v.iter().map(|x| x.to_string()).collect()
}

/// Equality of values as JSON compares them: objects by their entries,
/// whatever their order.
fn same(a: &Value, b: &Value) -> bool {
    match (a, b) {
        (Value::Null, Value::Null) => true,
        (Value::Bool(x), Value::Bool(y)) => x == y,
        (Value::Int(x), Value::Int(y)) => x == y,
        (Value::Float(x), Value::Float(y)) => x.bits == y.bits,
        (Value::Str(x), Value::Str(y)) => x == y,
        (Value::Array(x), Value::Array(y)) => x.len() == y.len() && x.iter().zip(y.iter()).all(|(p, q)| same(p, q)),
        (Value::Object(x), Value::Object(y)) => {
            x.len() == y.len()
                && x.iter().all(|(k, v)| y.iter().any(|(k2, v2)| k == k2 && same(v, v2)))
        }
        _ => false,
    }
}

fn same_opt(a: Option<&Value>, b: Option<&Value>) -> bool {
    match (a, b) {
        (None, None) => true,
        (Some(x), Some(y)) => same(x, y),
        _ => false,
    }
}

fn member<'a>(v: &'a Value, key: &str) -> Option<&'a Value> {
    match v {
        Value::Object(e) => e.iter().find(|(k, _)| k == key).map(|(_, v)| v),
        _ => None,
    }
}

use logprep_core::filter::expression::{FilterExpressionInner, FloatFacts};
use logprep_core::processor::generic_adder::GenericAdderRuleSpec;
use logprep_core::processor::key_checker::KeyCheckerRuleSpec;
use logprep_core::processor::run::{bypass_matches, current_tags, delete_source_fields, merged_tags, CoreRun, CoreStep};
use logprep_core::processor::spec_helper::{
    get_bool, get_string, get_string_list, split_dotted_fields, validate_required_keys,
};
use logprep_core::processor::{RuleSpec, SpecError, SpecWarning};

fn raw_with(entries: Vec<(&str, Value)>) -> Vec<(String, Value)> {
    entries.into_iter().map(|(k, v)| (k.to_string(), v)).collect()
}

fn checker(source_fields: Vec<&str>) -> KeyCheckerRuleSpec {
    KeyCheckerRuleSpec {
        source_fields: source_fields.into_iter().map(String::from).collect(),
        target_field: "missing_fields".into(),
        overwrite_target: false,
        merge_with_target: false,
    }
}

fn apply<S: RuleSpec>(spec: &S, event: &mut Value) -> (Result<(), SpecError>, Vec<SpecWarning>) {
    let mut warnings = Vec::new();
    let result = spec.apply(event, &mut warnings);
    (result, warnings)
}

fn skipped(w: &SpecWarning) -> Vec<String> {
    match w {
        SpecWarning::FieldExists { skipped_fields } => skipped_fields.clone(),
        SpecWarning::Warning { .. } => panic!("expected FieldExists warning"),
    }
}

fn adder(merge: bool, overwrite: bool, add: Vec<(&str, Value)>) -> GenericAdderRuleSpec {
    GenericAdderRuleSpec { merge_with_target: merge, overwrite_target: overwrite, additions: raw_with(add) }
}

#[test]
fn validate_required_keys_passes_when_present() {
    let raw = raw_with(vec![("drop", arr(vec![s("a.b")]))]);
    assert!(validate_required_keys(&raw, &["drop"]).is_ok());
}

#[test]
fn validate_required_keys_fails_when_missing() {
    let raw = raw_with(vec![]);
    assert!(validate_required_keys(&raw, &["drop"]).is_err());
}

#[test]
fn validate_required_keys_checks_multiple() {
    let raw = raw_with(vec![("drop", arr(vec![]))]);
    assert!(validate_required_keys(&raw, &["drop", "drop_full"]).is_err());
    let raw = raw_with(vec![("drop", arr(vec![])), ("drop_full", Value::Bool(true))]);
    assert!(validate_required_keys(&raw, &["drop", "drop_full"]).is_ok());
}

#[test]
fn get_string_list_ok() {
    let raw = raw_with(vec![("drop", arr(vec![s("a"), s("b.c")]))]);
    assert_eq!(get_string_list(&raw, "drop").unwrap(), vec!["a".to_string(), "b.c".to_string()]);
}

#[test]
fn get_string_list_rejects_non_strings() {
    let raw = raw_with(vec![("drop", arr(vec![s("a"), i(42)]))]);
    assert!(get_string_list(&raw, "drop").is_err());
}

#[test]
fn get_string_list_missing_key() {
    let raw = raw_with(vec![]);
    assert!(get_string_list(&raw, "drop").is_err());
}

#[test]
fn get_string_and_bool_optional() {
    let raw = raw_with(vec![("target", s("t")), ("flag", Value::Bool(true))]);
    assert_eq!(get_string(&raw, "target").unwrap().unwrap(), "t");
    assert_eq!(get_string(&raw, "missing").unwrap(), None);
    assert_eq!(get_bool(&raw, "flag").unwrap(), Some(true));
    assert_eq!(get_bool(&raw, "missing").unwrap(), None);
    let raw = raw_with(vec![("target", i(3))]);
    assert!(get_string(&raw, "target").is_err());
}

#[test]
fn split_dotted_fields_escapes() {
    let fields = vec!["a.b".to_string(), r"lone\.field.c".to_string()];
    let parts = split_dotted_fields(&fields);
    assert_eq!(parts[0], vec!["a".to_string(), "b".to_string()]);
    assert_eq!(parts[1], vec!["lone.field".to_string(), "c".to_string()]);
}

#[test]
fn split_dotted_fields_single() {
    let fields = vec![String::from("plain")];
    assert_eq!(split_dotted_fields(&fields), vec![vec!["plain".to_string()]]);
}

#[test]
fn config_error_messages() {
    let raw = raw_with(vec![("n", i(1))]);
    assert_eq!(validate_required_keys(&raw, &["n", "x"]).err().unwrap(), "missing required key 'x'");
    assert_eq!(get_string_list(&raw, "n").err().unwrap(), "'n' must be a list of strings");
    assert_eq!(get_string(&raw, "n").err().unwrap(), "'n' must be a string");
    assert_eq!(get_bool(&raw, "n").err().unwrap(), "'n' must be a bool");
    assert_eq!(get_string_list(&raw, "m").err().unwrap(), "missing required key 'm'");
}

#[test]
fn validate_requires_source_fields_and_target_field() {
    let raw = raw_with(vec![]);
    assert!(KeyCheckerRuleSpec::validate(&raw).is_err());
    let raw = raw_with(vec![("target_field", s("t"))]);
    assert!(KeyCheckerRuleSpec::validate(&raw).is_err());
    let raw = raw_with(vec![("source_fields", arr(vec![s("a")])), ("target_field", s("t"))]);
    assert!(KeyCheckerRuleSpec::validate(&raw).is_ok());
}

#[test]
fn writes_missing_root_key() {
    let mut event = obj(vec![("testkey", s("key1_value")), ("_index", s("value"))]);
    let (result, warnings) = apply(&checker(vec!["key2"]), &mut event);
    assert!(result.is_ok());
    assert!(warnings.is_empty());
    let expected = obj(vec![
        ("testkey", s("key1_value")),
        ("_index", s("value")),
        ("missing_fields", arr(vec![s("key2")])),
    ]);
    assert!(same(&event, &expected));
}

#[test]
fn writes_missing_sub_key() {
    let mut event = obj(vec![("testkey", obj(vec![("key1", s("key1_value")), ("_index", s("value"))]))]);
    let (result, _) = apply(&checker(vec!["testkey.key2"]), &mut event);
    assert!(result.is_ok());
    assert!(same_opt(member(&event, "missing_fields"), Some(&arr(vec![s("testkey.key2")]))));
}

#[test]
fn writes_only_missing_of_many() {
    let mut event = obj(vec![(
        "key1",
        obj(vec![
            ("key2", obj(vec![("key3", obj(vec![("key3", s("v"))])), ("random_key", s("r"))])),
            ("_index", s("value")),
        ]),
    )]);
    let (result, _) = apply(&checker(vec!["key1.key2", "key1", "key1.key2.key3", "key4"]), &mut event);
    assert!(result.is_ok());
    assert!(same_opt(member(&event, "missing_fields"), Some(&arr(vec![s("key4")]))));
}

#[test]
fn all_keys_present_leaves_event_unchanged() {
    let mut event = obj(vec![("key1", obj(vec![("key2", s("v"))]))]);
    let (result, warnings) = apply(&checker(vec!["key1", "key1.key2"]), &mut event);
    assert!(result.is_ok());
    assert!(warnings.is_empty());
    assert!(same(&event, &obj(vec![("key1", obj(vec![("key2", s("v"))]))])));
}

#[test]
fn duplicate_source_fields_dedup() {
    let mut event = obj(vec![("randomkey", s("x"))]);
    let (result, _) = apply(&checker(vec!["key1", "key1"]), &mut event);
    assert!(result.is_ok());
    assert!(same_opt(member(&event, "missing_fields"), Some(&arr(vec![s("key1")]))));
}

#[test]
fn result_is_sorted() {
    let mut event = obj(vec![("b", s("x"))]);
    let (result, _) = apply(&checker(vec!["c", "a"]), &mut event);
    assert!(result.is_ok());
    assert!(same_opt(member(&event, "missing_fields"), Some(&arr(vec![s("a"), s("c")]))));
}

#[test]
fn null_value_counts_as_existing() {
    let mut event = obj(vec![("key1", Value::Null)]);
    let (result, warnings) = apply(&checker(vec!["key1"]), &mut event);
    assert!(result.is_ok());
    assert!(warnings.is_empty());
    assert!(member(&event, "missing_fields").is_none());
}

#[test]
fn extends_existing_list_with_overwrite_target() {
    let mut rule_spec = checker(vec!["not.existing.key"]);
    rule_spec.overwrite_target = true;
    let mut event = obj(vec![("missing_fields", arr(vec![s("i.exists.already")]))]);
    let (result, warnings) = apply(&rule_spec, &mut event);
    assert!(result.is_ok());
    assert!(warnings.is_empty());
    let expected = arr(vec![s("i.exists.already"), s("not.existing.key")]);
    assert!(same_opt(member(&event, "missing_fields"), Some(&expected)));
}

#[test]
fn prevents_duplicates_in_existing_list() {
    let mut rule_spec = checker(vec!["not.existing.key"]);
    rule_spec.overwrite_target = true;
    let mut event = obj(vec![("missing_fields", arr(vec![s("not.existing.key")]))]);
    let (result, _) = apply(&rule_spec, &mut event);
    assert!(result.is_ok());
    assert!(same_opt(member(&event, "missing_fields"), Some(&arr(vec![s("not.existing.key")]))));
}

#[test]
fn existing_target_produces_field_exists_warning() {
    let mut event = obj(vec![("missing_fields", arr(vec![s("i.exists.already")]))]);
    let (result, warnings) = apply(&checker(vec!["not.existing.key"]), &mut event);
    assert!(result.is_ok());
    assert_eq!(warnings.len(), 1);
    assert_eq!(skipped(&warnings[0]), vec!["missing_fields".to_string()]);
    assert!(same_opt(member(&event, "missing_fields"), Some(&arr(vec![s("i.exists.already")]))));
}

#[test]
fn escaped_dot_source_field() {
    let mut event = obj(vec![("dotted.field", s("x"))]);
    let (result, warnings) = apply(&checker(vec![r"dotted\.field"]), &mut event);
    assert!(result.is_ok());
    assert!(warnings.is_empty());
    assert!(member(&event, "missing_fields").is_none());
}

#[test]
fn string_target_expands_to_characters_with_overwrite() {
    let mut rule_spec = checker(vec!["z"]);
    rule_spec.overwrite_target = true;
    let mut event = obj(vec![("missing_fields", s("ab"))]);
    let (result, warnings) = apply(&rule_spec, &mut event);
    assert!(result.is_ok());
    assert!(warnings.is_empty());
    assert!(same_opt(member(&event, "missing_fields"), Some(&arr(vec![s("a"), s("b"), s("z")]))));
}

#[test]
fn existing_string_target_without_overwrite_warns() {
    let mut event = obj(vec![("missing_fields", s("ab"))]);
    let (result, warnings) = apply(&checker(vec!["z"]), &mut event);
    assert!(result.is_ok());
    assert_eq!(warnings.len(), 1);
    assert_eq!(skipped(&warnings[0]), vec!["missing_fields".to_string()]);
    assert!(same_opt(member(&event, "missing_fields"), Some(&s("ab"))));
}

#[test]
fn object_target_contributes_its_keys() {
    let mut rule_spec = checker(vec!["b"]);
    rule_spec.overwrite_target = true;
    let mut event = obj(vec![("missing_fields", obj(vec![("c", i(1)), ("a", i(2))]))]);
    let (result, _) = apply(&rule_spec, &mut event);
    assert!(result.is_ok());
    assert!(same_opt(member(&event, "missing_fields"), Some(&arr(vec![s("a"), s("b"), s("c")]))));
}

#[test]
fn writes_simple_add_fields() {
    let mut event = obj(vec![("event_id", i(123))]);
    let spec = adder(false, false, vec![("some_added_field", s("some value")), ("another_added_field", s("another_value"))]);
    let (result, warnings) = apply(&spec, &mut event);
    assert!(result.is_ok());
    assert!(warnings.is_empty());
    let expected = obj(vec![
        ("event_id", i(123)),
        ("some_added_field", s("some value")),
        ("another_added_field", s("another_value")),
    ]);
    assert!(same(&event, &expected));
}

#[test]
fn creates_dotted_path() {
    let mut event = obj(vec![]);
    let spec = adder(false, false, vec![("dotted.added.field", s("yet_another_value"))]);
    let (result, _) = apply(&spec, &mut event);
    assert!(result.is_ok());
    let expected = obj(vec![("dotted", obj(vec![("added", obj(vec![("field", s("yet_another_value"))]))]))]);
    assert!(same(&event, &expected));
}

#[test]
fn writes_nested_and_list_values() {
    let mut event = obj(vec![]);
    let spec = adder(false, false, vec![
        ("nested", obj(vec![("a", i(1))])),
        ("items", arr(vec![s("x"), i(2), Value::Bool(false)])),
        ("flag", Value::Bool(true)),
    ]);
    let (result, _) = apply(&spec, &mut event);
    assert!(result.is_ok());
    let expected = obj(vec![
        ("nested", obj(vec![("a", i(1))])),
        ("items", arr(vec![s("x"), i(2), Value::Bool(false)])),
        ("flag", Value::Bool(true)),
    ]);
    assert!(same(&event, &expected));
}

#[test]
fn merges_mapping_into_existing_target() {
    let mut event = obj(vec![("shared_field", obj(vec![("from_first_source", Value::Bool(true))]))]);
    let spec = adder(true, false, vec![("shared_field", obj(vec![("from_inline_add", Value::Bool(true))]))]);
    let (result, warnings) = apply(&spec, &mut event);
    assert!(result.is_ok());
    assert!(warnings.is_empty());
    let expected = obj(vec![("from_first_source", Value::Bool(true)), ("from_inline_add", Value::Bool(true))]);
    assert!(same_opt(member(&event, "shared_field"), Some(&expected)));
}

#[test]
fn appends_to_existing_list_with_merge() {
    let mut event = obj(vec![("items", arr(vec![i(1), i(2)]))]);
    let spec = adder(true, false, vec![("items", arr(vec![i(3)]))]);
    let (result, _) = apply(&spec, &mut event);
    assert!(result.is_ok());
    assert!(same_opt(member(&event, "items"), Some(&arr(vec![i(1), i(2), i(3)]))));
}

#[test]
fn non_list_target_with_merge_warns() {
    let mut event = obj(vec![("items", s("not_a_list"))]);
    let spec = adder(true, false, vec![("items", s("some value"))]);
    let (result, warnings) = apply(&spec, &mut event);
    assert!(result.is_ok());
    assert_eq!(warnings.len(), 1);
    assert_eq!(skipped(&warnings[0]), vec!["items".to_string()]);
    assert!(same_opt(member(&event, "items"), Some(&s("not_a_list"))));
}

#[test]
fn overwrite_disabled_keeps_existing_value() {
    let mut event = obj(vec![("some_added_field", s("some_non_dict"))]);
    let spec = adder(false, false, vec![("some_added_field", s("some value"))]);
    let (result, warnings) = apply(&spec, &mut event);
    assert!(result.is_ok());
    assert_eq!(warnings.len(), 1);
    assert_eq!(skipped(&warnings[0]), vec!["some_added_field".to_string()]);
    assert!(same_opt(member(&event, "some_added_field"), Some(&s("some_non_dict"))));
}

#[test]
fn overwrite_enabled_replaces_value() {
    let mut event = obj(vec![("some_added_field", s("old"))]);
    let spec = adder(false, true, vec![("some_added_field", s("new"))]);
    let (result, warnings) = apply(&spec, &mut event);
    assert!(result.is_ok());
    assert!(warnings.is_empty());
    assert!(same_opt(member(&event, "some_added_field"), Some(&s("new"))));
}

#[test]
fn partial_failure_writes_successful_fields_and_warns() {
    let mut event = obj(vec![("some_added_field", s("some_non_dict"))]);
    let spec = adder(false, false, vec![
        ("some_added_field", s("some value")),
        ("another_added_field", s("another_value")),
        ("dotted.added.field", s("yet_another_value")),
    ]);
    let (result, warnings) = apply(&spec, &mut event);
    assert!(result.is_ok());
    assert_eq!(warnings.len(), 1);
    assert_eq!(skipped(&warnings[0]), vec!["some_added_field".to_string()]);
    let expected = obj(vec![
        ("some_added_field", s("some_non_dict")),
        ("another_added_field", s("another_value")),
        ("dotted", obj(vec![("added", obj(vec![("field", s("yet_another_value"))]))])),
    ]);
    assert!(same(&event, &expected));
}

#[test]
fn empty_additions_is_noop() {
    let mut event = obj(vec![("event_id", i(1))]);
    let spec = adder(false, false, vec![]);
    let (result, warnings) = apply(&spec, &mut event);
    assert!(result.is_ok());
    assert!(warnings.is_empty());
    assert!(same(&event, &obj(vec![("event_id", i(1))])));
}

#[test]
fn adder_writes_null_values() {
    let mut event = obj(vec![]);
    let spec = adder(false, false, vec![("a", Value::Null)]);
    let (result, _) = apply(&spec, &mut event);
    assert!(result.is_ok());
    assert!(same(&event, &obj(vec![("a", Value::Null)])));
    assert_eq!(spec.processor_name(), "generic_adder");
    assert_eq!(checker(vec![]).processor_name(), "key_checker");
}

#[test]
fn core_run_applies_each_rule_once() {
    let mut run = CoreRun::start(true, false, &vec![1, 2]);
    assert!(matches!(run.step(), CoreStep::Apply(1)));
    assert!(matches!(run.step(), CoreStep::Apply(2)));
    assert!(matches!(run.step(), CoreStep::Rematch));
    // the changed event matches rule 2 again and rule 3 for the first time
    run.rematched(&vec![2, 3]);
    assert!(matches!(run.step(), CoreStep::Apply(3)));
    assert!(matches!(run.step(), CoreStep::Rematch));
    run.rematched(&vec![1, 2, 3]);
    assert!(matches!(run.step(), CoreStep::Done));
    assert_eq!(run.matched_rule_ids(), vec![1, 2, 3]);
}

#[test]
fn core_run_single_pass_without_repetition() {
    let mut run = CoreRun::start(false, false, &vec![4]);
    assert!(matches!(run.step(), CoreStep::Apply(4)));
    assert!(matches!(run.step(), CoreStep::Done));
    let mut bypass = CoreRun::start(true, true, &vec![5]);
    assert!(matches!(bypass.step(), CoreStep::Apply(5)));
    assert!(matches!(bypass.step(), CoreStep::Done));
    let mut empty = CoreRun::start(true, false, &vec![]);
    assert!(matches!(empty.step(), CoreStep::Done));
    assert!(empty.matched_rule_ids().is_empty());
}

#[test]
fn bypass_matches_in_given_order() {
    let rules = vec![
        (3, Some(FilterExpressionInner::Exists { key: vec!["a".into()] })),
        (1, None),
        (2, Some(FilterExpressionInner::Always { value: true })),
        (4, Some(FilterExpressionInner::Exists { key: vec!["b".into()] })),
    ];
    let event = obj(vec![("a", i(1))]);
    assert_eq!(bypass_matches(&rules, &event, &FloatFacts { entries: vec![] }), vec![3, 2]);
}

#[test]
fn delete_source_fields_removes_and_drops_empty_parents() {
    let mut event = obj(vec![("a", obj(vec![("b", i(1))])), ("c", i(2)), ("d", i(3))]);
    delete_source_fields(&mut event, &strs(&["a.b", "c", "x.y"]));
    assert!(same(&event, &obj(vec![("d", i(3))])));
}

#[test]
fn tags_of_an_event() {
    assert!(current_tags(None, "").is_empty());
    let list = arr(vec![s("b"), i(1), s("a")]);
    assert_eq!(current_tags(Some(&list), ""), vec!["b".to_string(), "a".to_string()]);
    assert_eq!(current_tags(Some(&s("one")), ""), vec!["one".to_string()]);
    assert_eq!(current_tags(Some(&i(7)), "7"), vec!["7".to_string()]);
}

#[test]
fn merged_tags_are_sorted_without_repeats() {
    let merged = merged_tags(&strs(&["z", "a"]), &strs(&["m", "a"]), &strs(&["b", "z"]));
    assert_eq!(merged, strs(&["a", "b", "m", "z"]));
    assert!(merged_tags(&vec![], &vec![], &vec![]).is_empty());
}

use logprep_core::rule::tree::TreeInner;

fn string_expr(key: &str, expected: &str) -> FilterExpressionInner {
    FilterExpressionInner::String { key: vec![key.into()], expected: expected.into() }
}

fn always_expr() -> FilterExpressionInner {
    FilterExpressionInner::Always { value: true }
}

fn no_facts() -> FloatFacts {
    FloatFacts { entries: vec![] }
}

/// Processes an event the way the processor core does: rules matched by
/// the tree (or, bypassing it, by their filters), each applied once by
/// `hook`, and matched again after each batch when rules apply repeatedly.
fn process(
    tree: &TreeInner,
    filters: &Vec<(u64, Option<FilterExpressionInner>)>,
    apply_multiple_times: bool,
    bypass: bool,
    event: &mut Value,
    hook: &mut dyn FnMut(u64, &mut Value),
) -> Vec<u64> {
    let matching = |event: &Value| {
        if bypass {
            bypass_matches(filters, event, &no_facts())
        } else {
            tree.get_matching_rules(event, &no_facts())
        }
    };
    let mut run = CoreRun::start(apply_multiple_times, bypass, &matching(event));
    loop {
        match run.step() {
            CoreStep::Apply(id) => hook(id, event),
            CoreStep::Rematch => {
                let matched = matching(event);
                run.rematched(&matched);
            }
            CoreStep::Done => break,
        }
    }
    run.matched_rule_ids()
}

fn tree_with(rules: Vec<(u64, FilterExpressionInner)>) -> TreeInner {
    let mut tree = TreeInner::new();
    for (id, expr) in rules {
        tree.add_rule(&[expr], id);
    }
    tree
}

#[test]
fn test_apply_multiple_times_reprocesses_changed_event() {
    let tree = tree_with(vec![(1, always_expr()), (2, string_expr("generated", "yes"))]);
    let mut event = obj(vec![("start", s("1"))]);
    let mut hook = |_id: u64, e: &mut Value| {
        if let Value::Object(entries) = e {
            if !entries.iter().any(|(k, _)| k == "generated") {
                entries.push(("generated".to_string(), s("yes")));
            }
        }
    };
    assert_eq!(process(&tree, &vec![], true, false, &mut event, &mut hook), vec![1, 2]);
}

#[test]
fn test_apply_multiple_times_rule_applies_only_once() {
    let tree = tree_with(vec![(5, always_expr())]);
    let mut event = obj(vec![("start", s("1"))]);
    assert_eq!(process(&tree, &vec![], true, false, &mut event, &mut |_, _| {}), vec![5]);
}

#[test]
fn test_apply_multiple_times_terminates_without_new_matches() {
    let tree = tree_with(vec![(5, string_expr("f", "v"))]);
    let mut event = obj(vec![("f", s("v"))]);
    assert_eq!(process(&tree, &vec![], true, false, &mut event, &mut |_, _| {}), vec![5]);
}

#[test]
fn test_bypass_matches_all_rules_via_filter() {
    let tree = tree_with(vec![(9, string_expr("no", "match"))]);
    let filters = vec![(9, Some(always_expr()))];
    let mut event = obj(vec![("f", s("v"))]);
    assert_eq!(process(&tree, &filters, false, true, &mut event, &mut |_, _| {}), vec![9]);
}

#[test]
fn test_bypass_non_matching_filter_excluded() {
    let tree = tree_with(vec![(9, string_expr("no", "match"))]);
    let filters = vec![(9, Some(string_expr("no", "match")))];
    let mut event = obj(vec![("f", s("v"))]);
    assert!(process(&tree, &filters, false, true, &mut event, &mut |_, _| {}).is_empty());
}

#[test]
fn test_bypass_runs_single_pass_even_with_apply_multiple_times() {
    let tree = tree_with(vec![(9, string_expr("no", "match"))]);
    let filters = vec![(9, Some(always_expr()))];
    let mut event = obj(vec![("f", s("v"))]);
    let mut count = 0;
    let matched = process(&tree, &filters, true, true, &mut event, &mut |_, _| count += 1);
    assert_eq!(matched, vec![9]);
    assert_eq!(count, 1);
}

#[test]
fn test_multiple_rules_all_matched() {
    let tree = tree_with(vec![(10, always_expr()), (20, always_expr()), (30, always_expr())]);
    let mut event = obj(vec![("a", s("b"))]);
    let matched = process(&tree, &vec![], false, false, &mut event, &mut |_, _| {});
    assert_eq!(matched.len(), 3);
    for id in [10u64, 20, 30] {
        assert!(matched.contains(&id));
    }
}

#[test]
fn test_delete_source_fields_pops_fields() {
    let mut event = obj(vec![("f", s("v")), ("keep", s("1")), ("nested", obj(vec![("x", s("y")), ("z", s("w"))]))]);
    delete_source_fields(&mut event, &strs(&["f", "nested.x"]));
    assert!(member(&event, "f").is_none());
    assert!(member(&event, "keep").is_some());
    let nested = member(&event, "nested").unwrap();
    assert!(member(nested, "x").is_none());
    assert!(member(nested, "z").is_some());
}

#[test]
fn test_delete_source_fields_drops_empty_parents() {
    let mut event = obj(vec![("f", s("v")), ("nested", obj(vec![("only", s("x"))]))]);
    delete_source_fields(&mut event, &strs(&["nested.only"]));
    assert!(member(&event, "nested").is_none());
}

#[test]
fn test_current_tag_set_variants() {
    assert!(current_tags(None, "").is_empty());
    assert!(current_tags(Some(&s("single")), "single").contains(&"single".to_string()));
    let both = current_tags(Some(&arr(vec![s("a"), s("b")])), "['a', 'b']");
    assert!(both.contains(&"a".to_string()) && both.contains(&"b".to_string()));
    assert!(current_tags(Some(&i(42)), "42").contains(&"42".to_string()));
    let mixed = current_tags(Some(&arr(vec![s("x"), i(7)])), "['x', 7]");
    assert!(mixed.contains(&"x".to_string()) && !mixed.contains(&"7".to_string()));
}

#[test]
fn test_warning_dedupes_tags() {
    let current = current_tags(Some(&arr(vec![s("_fake_failure")])), "");
    assert_eq!(merged_tags(&current, &strs(&["_fake_failure"]), &vec![]), strs(&["_fake_failure"]));
}

#[test]
fn test_processing_warning_merges_failure_tags() {
    let current = current_tags(None, "");
    assert_eq!(merged_tags(&current, &strs(&["_fake_failure"]), &vec![]), strs(&["_fake_failure"]));
}

#[test]
fn test_processing_warning_merges_existing_and_error_tags() {
    let current = current_tags(Some(&arr(vec![s("existing"), s("another")])), "");
    assert_eq!(
        merged_tags(&current, &strs(&["_fake_failure"]), &strs(&["_extra"])),
        strs(&["_extra", "_fake_failure", "another", "existing"])
    );
}

#[test]
fn test_existing_tags_as_string_are_merged() {
    let current = current_tags(Some(&s("single_tag")), "single_tag");
    assert_eq!(merged_tags(&current, &strs(&["_fake_failure"]), &vec![]), strs(&["_fake_failure", "single_tag"]));
}

#[test]
fn additions_preserve_insertion_order() {
    let mut event = obj(vec![]);
    let spec = adder(false, false, vec![("z", i(1)), ("a", i(2)), ("m", i(3))]);
    let (result, _) = apply(&spec, &mut event);
    assert!(result.is_ok());
    match &event {
        Value::Object(entries) => {
            let keys: Vec<&str> = entries.iter().map(|(k, _)| k.as_str()).collect();
            assert_eq!(keys, vec!["z", "a", "m"]);
        }
        _ => panic!("event is not an object"),
    }
}

#[test]
fn rule_specs_name_their_processor() {
    assert_eq!(adder(false, false, vec![]).processor_name(), "generic_adder");
    assert_eq!(checker(vec!["a"]).processor_name(), "key_checker");
}

#[test]
fn tree_keeps_regex_tests_with_other_patterns_apart() {
    let foo = FilterExpressionInner::Regex { key: vec!["ip".into()], pattern: "^foo$".into() };
    let bar = FilterExpressionInner::Regex { key: vec!["ip".into()], pattern: "^bar$".into() };
    let tree = tree_with(vec![(1, foo), (2, bar)]);
    assert_eq!(tree.size(), 3);
    assert_eq!(tree.get_matching_rules(&obj(vec![("ip", s("foo"))]), &no_facts()), vec![1]);
    assert_eq!(tree.get_matching_rules(&obj(vec![("ip", s("bar"))]), &no_facts()), vec![2]);
    assert!(tree.get_matching_rules(&obj(vec![("ip", s("baz"))]), &no_facts()).is_empty());
}
