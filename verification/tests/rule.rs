use logprep_core::filter::expression::{FilterExpressionInner, FloatFacts};
use logprep_core::rule::demorgan::DeMorganResolverInner;
use logprep_core::rule::node::NodeInner;
use logprep_core::rule::parser::RuleParserInner;
use logprep_core::rule::segmenter::{CnfToDnfConverterInner, RuleSegmenterInner};
use logprep_core::rule::sorter::RuleSorterInner;
use logprep_core::rule::tagger::RuleTaggerInner;
use logprep_core::rule::tree::TreeInner;
use logprep_core::value::Value;

fn exists_test(key: &str) -> FilterExpressionInner {
    FilterExpressionInner::Exists { key: vec![key.into()] }
}

fn string_expr(key: &str, val: &str) -> FilterExpressionInner {
    FilterExpressionInner::String { key: vec![key.into()], expected: val.into() }
}

fn obj(entries: Vec<(&str, Value)>) -> Value {
    Value::Object(entries.into_iter().map(|(k, v)| (k.to_string(), v)).collect())
}

fn s(x: &str) -> Value {
    Value::Str(x.to_string())
}

fn no_facts() -> FloatFacts {
    FloatFacts { entries: Vec::new() }
}

fn pairs(p: &[(&str, &str)]) -> Vec<(String, String)> {
    p.iter().map(|(a, b)| (a.to_string(), b.to_string())).collect()
}

#[test]
fn simple_not_stays() {
    let expr = FilterExpressionInner::Not { child: Box::new(exists_test("a")) };
    let resolved = DeMorganResolverInner::resolve(&expr);
    assert!(matches!(resolved, FilterExpressionInner::Not { .. }));
}

#[test]
fn not_and_becomes_or() {
    let expr = FilterExpressionInner::Not {
        child: Box::new(FilterExpressionInner::And { children: vec![exists_test("a"), exists_test("b")] }),
    };
    let resolved = DeMorganResolverInner::resolve(&expr);
    assert!(matches!(resolved, FilterExpressionInner::Or { .. }));
}

#[test]
fn not_or_becomes_and() {
    let expr = FilterExpressionInner::Not {
        child: Box::new(FilterExpressionInner::Or { children: vec![exists_test("a"), exists_test("b")] }),
    };
    let resolved = DeMorganResolverInner::resolve(&expr);
    assert!(matches!(resolved, FilterExpressionInner::And { .. }));
}

#[test]
fn double_not_cancels() {
    let expr = FilterExpressionInner::Not {
        child: Box::new(FilterExpressionInner::Not { child: Box::new(exists_test("a")) }),
    };
    let resolved = DeMorganResolverInner::resolve(&expr);
    assert!(matches!(resolved, FilterExpressionInner::Exists { .. }));
}

#[test]
fn non_not_unchanged() {
    let expr = FilterExpressionInner::Always { value: true };
    let resolved = DeMorganResolverInner::resolve(&expr);
    assert!(matches!(resolved, FilterExpressionInner::Always { value: true }));
}

#[test]
fn resolving_keeps_matching() {
    // NOT (a exists AND b = "1") on events that do and do not match
    let expr = FilterExpressionInner::Not {
        child: Box::new(FilterExpressionInner::And { children: vec![exists_test("a"), string_expr("b", "1")] }),
    };
    let resolved = DeMorganResolverInner::resolve(&expr);
    let events = vec![
        obj(vec![]),
        obj(vec![("a", s("x"))]),
        obj(vec![("a", s("x")), ("b", s("1"))]),
        obj(vec![("b", s("1"))]),
    ];
    for e in &events {
        assert_eq!(expr.matches(e, &no_facts()), resolved.matches(e, &no_facts()));
    }
}

#[test]
fn simple_expression_stays() {
    let expr = exists_test("a");
    let dnf = RuleSegmenterInner::segment_into_dnf(&expr);
    assert_eq!(dnf.len(), 1);
    assert_eq!(dnf[0].len(), 1);
}

#[test]
fn and_expression() {
    let expr = FilterExpressionInner::And { children: vec![exists_test("a"), exists_test("b")] };
    let dnf = RuleSegmenterInner::segment_into_dnf(&expr);
    assert_eq!(dnf.len(), 1);
    assert_eq!(dnf[0].len(), 2);
}

#[test]
fn or_expression() {
    let expr = FilterExpressionInner::Or { children: vec![exists_test("a"), exists_test("b")] };
    let dnf = RuleSegmenterInner::segment_into_dnf(&expr);
    assert_eq!(dnf.len(), 2);
    assert_eq!(dnf[0].len(), 1);
    assert_eq!(dnf[1].len(), 1);
}

#[test]
fn distribution_a_or_b_and_c() {
    let expr = FilterExpressionInner::And {
        children: vec![
            FilterExpressionInner::Or { children: vec![string_expr("a", "1"), string_expr("b", "2")] },
            string_expr("c", "3"),
        ],
    };
    let dnf = RuleSegmenterInner::segment_into_dnf(&expr);
    assert_eq!(dnf.len(), 2, "DNF should have 2 OR branches");
    for branch in &dnf {
        assert_eq!(branch.len(), 2, "Each branch should have 2 AND expressions");
        assert!(branch
            .iter()
            .any(|e| matches!(e, FilterExpressionInner::String { expected, .. } if expected == "3")));
    }
}

#[test]
fn convert_orders_and_merges_equal_segments() {
    // (b OR a) AND (b OR a): the segments come out ordered by their text
    let or = || FilterExpressionInner::Or { children: vec![exists_test("b"), exists_test("a")] };
    let dnf = CnfToDnfConverterInner::convert(&vec![or(), or()]);
    let texts: Vec<String> = dnf
        .iter()
        .map(|seg| seg.iter().map(|e| e.to_repr()).collect::<Vec<_>>().join("|"))
        .collect();
    assert_eq!(texts, vec!["a: *|a: *", "a: *|b: *", "b: *|a: *", "b: *|b: *"]);
    // (a OR a) AND b: the two equal segments are kept once
    let dnf = CnfToDnfConverterInner::convert(&vec![
        FilterExpressionInner::Or { children: vec![exists_test("a"), exists_test("a")] },
        exists_test("b"),
    ]);
    assert_eq!(dnf.len(), 1);
    assert_eq!(dnf[0].len(), 2);
}

#[test]
fn sort_by_priority_within_segment() {
    let mut segments = vec![vec![string_expr("z", "1"), string_expr("a", "2")]];
    let priority = pairs(&[("a", "01")]);
    RuleSorterInner::sort_segments(&mut segments, &priority);
    let first_key = match &segments[0][0] {
        FilterExpressionInner::String { key, .. } => key[0].clone(),
        _ => panic!(),
    };
    assert_eq!(first_key, "a");
}

#[test]
fn always_first() {
    let mut segments = vec![vec![FilterExpressionInner::Always { value: true }], vec![exists_test("a")]];
    RuleSorterInner::sort_segments(&mut segments, &Vec::new());
    assert!(matches!(segments[0][0], FilterExpressionInner::Always { .. }));
}

#[test]
fn sorting_only_reorders() {
    let mut segments = vec![vec![exists_test("c"), FilterExpressionInner::Always { value: true }, exists_test("a"), exists_test("b")]];
    RuleSorterInner::sort_segments(&mut segments, &Vec::new());
    let texts: Vec<String> = segments[0].iter().map(|e| e.to_repr()).collect();
    assert_eq!(texts, vec!["*", "a: *", "b: *", "c: *"]);
}

#[test]
fn adds_tag_to_matching_segment() {
    let mut segments = vec![vec![string_expr("field", "val")]];
    let tag_map = pairs(&[("field", "check-tag")]);
    RuleTaggerInner::add_tags(&mut segments, &tag_map);
    assert_eq!(segments[0].len(), 2);
    assert!(matches!(
        &segments[0][0],
        FilterExpressionInner::Exists { key } if key == &vec!["check-tag".to_string()]
    ));
}

#[test]
fn no_tag_map_no_change() {
    let mut segments = vec![vec![exists_test("a")]];
    RuleTaggerInner::add_tags(&mut segments, &Vec::new());
    assert_eq!(segments[0].len(), 1);
}

#[test]
fn tag_with_value_becomes_string_test() {
    let mut segments = vec![vec![string_expr("field", "val")]];
    let tag_map = pairs(&[("field", "tags.kind:important")]);
    RuleTaggerInner::add_tags(&mut segments, &tag_map);
    assert_eq!(segments[0].len(), 2);
    match &segments[0][0] {
        FilterExpressionInner::String { key, expected } => {
            assert_eq!(key, &vec!["tags".to_string(), "kind".to_string()]);
            assert_eq!(expected, "important");
        }
        _ => panic!("expected a string test"),
    }
}

#[test]
fn full_pipeline_simple_string() {
    let expr = string_expr("field", "val");
    let result = RuleParserInner::parse(&expr, &Vec::new(), &Vec::new());
    assert_eq!(result.len(), 1);
    assert_eq!(result[0].len(), 2);
    assert!(matches!(&result[0][0], FilterExpressionInner::Exists { .. }));
    assert!(matches!(&result[0][1], FilterExpressionInner::String { .. }));
}

#[test]
fn full_pipeline_or() {
    let expr = FilterExpressionInner::Or { children: vec![string_expr("a", "1"), string_expr("b", "2")] };
    let result = RuleParserInner::parse(&expr, &Vec::new(), &Vec::new());
    assert_eq!(result.len(), 2);
    for segment in &result {
        assert_eq!(segment.len(), 2);
        assert!(matches!(&segment[0], FilterExpressionInner::Exists { .. }));
    }
}

#[test]
fn pipeline_guards_each_field_once() {
    let expr = FilterExpressionInner::And { children: vec![string_expr("a", "1"), exists_test("a"), string_expr("a", "2")] };
    let result = RuleParserInner::parse(&expr, &Vec::new(), &Vec::new());
    assert_eq!(result.len(), 1);
    let texts: Vec<String> = result[0].iter().map(|e| e.to_repr()).collect();
    assert_eq!(texts, vec!["a: *", "a:\"1\"", "a:\"2\""]);
}

#[test]
fn pipeline_segment_matches_as_the_filter_does() {
    let expr = FilterExpressionInner::And { children: vec![string_expr("a", "1"), string_expr("b", "2")] };
    let result = RuleParserInner::parse(&expr, &Vec::new(), &Vec::new());
    let events = vec![
        obj(vec![("a", s("1")), ("b", s("2"))]),
        obj(vec![("a", s("1"))]),
        obj(vec![("b", s("2"))]),
    ];
    for e in &events {
        let seg_match = result[0].iter().all(|x| x.matches(e, &no_facts()));
        assert_eq!(seg_match, expr.matches(e, &no_facts()));
    }
}

#[test]
fn empty_tree_returns_no_rules() {
    let tree = TreeInner::new();
    let event = obj(vec![("field", s("value"))]);
    assert!(tree.get_matching_rules(&event, &no_facts()).is_empty());
}

#[test]
fn simple_rule_matches() {
    let mut tree = TreeInner::new();
    tree.add_rule(&[string_expr("field", "value")], 1);
    let event = obj(vec![("field", s("value"))]);
    assert_eq!(tree.get_matching_rules(&event, &no_facts()), vec![1]);
}

#[test]
fn non_matching_value() {
    let mut tree = TreeInner::new();
    tree.add_rule(&[string_expr("field", "other")], 1);
    let event = obj(vec![("field", s("value"))]);
    assert!(tree.get_matching_rules(&event, &no_facts()).is_empty());
}

#[test]
fn multi_segment_and_rule() {
    let mut tree = TreeInner::new();
    tree.add_rule(&[string_expr("a", "1"), string_expr("b", "2")], 42);
    let event = obj(vec![("a", s("1")), ("b", s("2"))]);
    assert_eq!(tree.get_matching_rules(&event, &no_facts()), vec![42]);
}

#[test]
fn partial_and_does_not_match() {
    let mut tree = TreeInner::new();
    tree.add_rule(&[string_expr("a", "1"), string_expr("b", "2")], 42);
    let event = obj(vec![("a", s("1")), ("b", s("WRONG"))]);
    assert!(tree.get_matching_rules(&event, &no_facts()).is_empty());
}

#[test]
fn deduplicates_rule_ids() {
    let mut tree = TreeInner::new();
    tree.add_rule(&[string_expr("field", "val")], 1);
    tree.add_rule(&[string_expr("field", "val")], 1);
    let event = obj(vec![("field", s("val"))]);
    assert_eq!(tree.get_matching_rules(&event, &no_facts()), vec![1]);
}

#[test]
fn multiple_rules_match() {
    let mut tree = TreeInner::new();
    tree.add_rule(&[exists_test("a")], 10);
    tree.add_rule(&[exists_test("a"), exists_test("b")], 20);
    let event = obj(vec![("a", Value::Int(1)), ("b", Value::Int(2))]);
    let matches = tree.get_matching_rules(&event, &no_facts());
    assert!(matches.contains(&10));
    assert!(matches.contains(&20));
}

#[test]
fn child_lookup_respects_equality() {
    let mut tree = TreeInner::new();
    tree.add_rule(&[string_expr("x", "1")], 1);
    tree.add_rule(&[string_expr("x", "1"), string_expr("x", "2")], 2);
    assert_eq!(tree.root().children.len(), 1);
}

#[test]
fn size_counts_all_nodes() {
    let mut tree = TreeInner::new();
    tree.add_rule(&[exists_test("a")], 1);
    tree.add_rule(&[exists_test("a"), exists_test("b")], 2);
    assert_eq!(tree.size(), 3);
}

#[test]
fn rule_count_counts_adds() {
    let mut tree = TreeInner::new();
    assert_eq!(tree.rule_count(), 0);
    tree.add_rule(&[exists_test("a")], 1);
    tree.add_rule(&[exists_test("a")], 2);
    assert_eq!(tree.rule_count(), 2);
}

#[test]
fn adding_a_rule_keeps_earlier_matches() {
    let mut tree = TreeInner::new();
    tree.add_rule(&[exists_test("a")], 1);
    let event = obj(vec![("a", s("x")), ("b", s("y"))]);
    let before = tree.get_matching_rules(&event, &no_facts());
    tree.add_rule(&[exists_test("a"), string_expr("b", "z")], 2);
    tree.add_rule(&[exists_test("b")], 3);
    let after = tree.get_matching_rules(&event, &no_facts());
    for id in before {
        assert!(after.contains(&id));
    }
    assert_eq!(after, vec![1, 3]);
}

#[test]
fn rule_with_empty_segment_is_never_found() {
    let mut tree = TreeInner::new();
    tree.add_rule(&[], 7);
    assert!(tree.get_matching_rules(&obj(vec![]), &no_facts()).is_empty());
    assert_eq!(tree.root().matching_rule_ids, vec![7]);
}

#[test]
fn node_child_lookup() {
    let mut node = NodeInner::new(None);
    node.add_child(NodeInner::new(Some(exists_test("a"))));
    node.add_child(NodeInner::new(Some(exists_test("b"))));
    assert!(node.get_child_with_expression(&exists_test("b")).is_some());
    assert!(node.get_child_with_expression(&exists_test("c")).is_none());
    if let Some(child) = node.get_child_with_expression_mut(&exists_test("a")) {
        child.matching_rule_ids.push(5);
    }
    assert_eq!(node.children[0].matching_rule_ids, vec![5]);
    assert_eq!(node.size(), 3);
    assert!(node.does_match(&obj(vec![]), &no_facts()));
    assert!(!node.children[0].does_match(&obj(vec![]), &no_facts()));
}

/// Builds a tree from one rule's parsed segments and reports whether the
/// rule is found for the document.
fn found_by_tree(filter: &FilterExpressionInner, doc: &Value) -> bool {
    let segments = RuleParserInner::parse(filter, &Vec::new(), &Vec::new());
    let mut tree = TreeInner::new();
    for segment in &segments {
        tree.add_rule(segment, 7);
    }
    tree.get_matching_rules(doc, &no_facts()) == vec![7]
}

#[test]
fn rule_found_exactly_when_filter_matches() {
    let filter = FilterExpressionInner::And {
        children: vec![
            FilterExpressionInner::Or { children: vec![string_expr("a", "1"), string_expr("b", "2")] },
            FilterExpressionInner::Not { child: Box::new(string_expr("c", "3")) },
        ],
    };
    let docs = vec![
        obj(vec![("a", s("1"))]),
        obj(vec![("b", s("2")), ("c", s("4"))]),
        obj(vec![("a", s("1")), ("c", s("3"))]),
        obj(vec![("a", s("2")), ("b", s("1"))]),
        obj(vec![]),
    ];
    let expected = [true, true, false, false, false];
    for (doc, want) in docs.iter().zip(expected.iter()) {
        assert_eq!(filter.matches(doc, &no_facts()), *want);
        assert_eq!(found_by_tree(&filter, doc), *want);
    }
}

#[test]
fn two_disjunctions_distribute_into_four_segments() {
    let filter = FilterExpressionInner::And {
        children: vec![
            FilterExpressionInner::Or { children: vec![string_expr("a", "1"), string_expr("b", "2")] },
            FilterExpressionInner::Or { children: vec![string_expr("c", "3"), string_expr("d", "4")] },
        ],
    };
    assert_eq!(RuleSegmenterInner::segment_into_dnf(&filter).len(), 4);
    let matching = obj(vec![("b", s("2")), ("c", s("3"))]);
    let half = obj(vec![("b", s("2"))]);
    assert!(found_by_tree(&filter, &matching));
    assert!(!found_by_tree(&filter, &half));
}

#[test]
fn match_all_expressions_come_first_in_a_segment() {
    let always = FilterExpressionInner::Always { value: true };
    let never = FilterExpressionInner::Not { child: Box::new(FilterExpressionInner::Always { value: true }) };
    let mut segments = vec![vec![string_expr("b", "1"), always, exists_test("a"), never]];
    RuleSorterInner::sort_segments(&mut segments, &Vec::new());
    assert!(matches!(segments[0][0], FilterExpressionInner::Always { .. }));
    assert!(matches!(segments[0][1], FilterExpressionInner::Not { .. }));
    assert_eq!(segments[0][2].to_repr(), "a: *");
    assert_eq!(segments[0][3].to_repr(), "b:\"1\"");
}

#[test]
fn three_disjunctions_distribute_into_eight_segments() {
    let or = |a: &str, b: &str| FilterExpressionInner::Or { children: vec![exists_test(a), exists_test(b)] };
    let filter = FilterExpressionInner::And { children: vec![or("a", "b"), or("c", "d"), or("e", "f")] };
    let segments = RuleSegmenterInner::segment_into_dnf(&filter);
    assert_eq!(segments.len(), 8);
    assert!(segments.iter().all(|s| s.len() == 3));
    let partial = obj(vec![("a", s("1")), ("c", s("1"))]);
    let full = obj(vec![("b", s("1")), ("c", s("1")), ("f", s("1"))]);
    assert!(!found_by_tree(&filter, &partial));
    assert!(found_by_tree(&filter, &full));
}

#[test]
fn resolving_twice_changes_nothing() {
    let expr = FilterExpressionInner::Not {
        child: Box::new(FilterExpressionInner::Or { children: vec![exists_test("a"), string_expr("b", "1")] }),
    };
    let once = DeMorganResolverInner::resolve(&expr);
    let twice = DeMorganResolverInner::resolve(&once);
    assert_eq!(once.to_repr(), twice.to_repr());
}
