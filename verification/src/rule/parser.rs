//! Turning a filter into the segments the rule tree stores: negations
//! resolved, divided into conjunctive segments, each ordered, guarded by
//! existence tests and tagged.
use vstd::prelude::*;
use crate::filter::expression::{all_match, expr_eq, expr_match, expr_matches, expr_models, json_lookup, leaf_key, Expr, FilterExpressionInner};
use crate::rule::demorgan::{resolve, DeMorganResolverInner};
use crate::rule::segmenter::{
    distributes, lemma_segment_into_dnf_matches, push_model, segment_into_dnf, segs_model, some_segment_matches,
    RuleSegmenterInner,
};
use crate::rule::sorter::{lemma_sorted_segment_permutation, pairs_view, sorted_segment, RuleSorterInner};
use crate::rule::tagger::{contains_eq, contains_equal, keys_nonempty, tag_key, tagged_segment, unnegated, RuleTaggerInner};
use crate::value::Json;

verus! {

/// The field an expression needs to exist: that of a field test other than
/// an existence test or a numeric range.
pub open spec fn exists_key(e: Expr) -> Option<Seq<Seq<char>>> {
    match e {
        Expr::Str { key, .. } => Some(key),
        Expr::Wildcard { key, .. } => Some(key),
        Expr::Sigma { key, .. } => Some(key),
        Expr::Integer { key, .. } => Some(key),
        Expr::Float { key, .. } => Some(key),
        Expr::IntegerRange { key, .. } => Some(key),
        Expr::FloatRange { key, .. } => Some(key),
        Expr::StringRange { key, .. } => Some(key),
        Expr::Regex { key, .. } => Some(key),
        Expr::Null { key } => Some(key),
        _ => None,
    }
}

/// A segment with an existence test put before each field test whose field
/// no earlier existence test covers.
pub open spec fn with_exists(s: Seq<Expr>) -> Seq<Expr>
    decreases s.len(),
{
    if s.len() == 0 {
        Seq::empty()
    } else {
        let out = with_exists(s.drop_last());
        match exists_key(s.last()) {
            Some(k) => if contains_eq(out, Expr::Exists { key: k }) {
                out.push(s.last())
            } else {
                out.push(Expr::Exists { key: k }).push(s.last())
            },
            None => out.push(s.last()),
        }
    }
}

/// The segments of a filter before tagging: each ordered by the priorities
/// and guarded by existence tests.
pub open spec fn prepared(segs: Seq<Seq<Expr>>, priorities: Seq<(Seq<char>, Seq<char>)>) -> Seq<Seq<Expr>> {
    Seq::new(segs.len(), |i: int| with_exists(sorted_segment(segs[i], priorities)))
}

/// What parsing a filter gives.
pub open spec fn parsed(
    e: Expr,
    priorities: Seq<(Seq<char>, Seq<char>)>,
    tags: Seq<(Seq<char>, Seq<char>)>,
) -> Seq<Seq<Expr>> {
    let p = prepared(segment_into_dnf(resolve(e)), priorities);
    if tags.len() == 0 {
        p
    } else {
        Seq::new(p.len(), |i: int| tagged_segment(p[i], tags))
    }
}

proof fn lemma_all_match_push(s: Seq<Expr>, x: Expr, d: Json, facts: Seq<(Seq<char>, Option<u64>)>)
    ensures
        all_match(s.push(x), d, facts) == (all_match(s, d, facts) && expr_matches(x, d, facts)),
{
    assert(s.push(x).subrange(0, s.len() as int) =~= s);
}

/// A conjunction matches exactly when each of its expressions does.
pub proof fn lemma_all_match_each(s: Seq<Expr>, d: Json, facts: Seq<(Seq<char>, Option<u64>)>)
    ensures
        all_match(s, d, facts) <==> forall|i: int| 0 <= i < s.len() ==> #[trigger] expr_matches(s[i], d, facts),
    decreases s.len(),
{
    if s.len() > 0 {
        let t = s.subrange(0, s.len() - 1);
        lemma_all_match_each(t, d, facts);
        assert forall|i: int| 0 <= i < t.len() implies t[i] == s[i] by {}
        if all_match(s, d, facts) {
            assert forall|i: int| 0 <= i < s.len() implies #[trigger] expr_matches(s[i], d, facts) by {
                if i < s.len() - 1 {
                    assert(expr_matches(t[i], d, facts));
                }
            }
        } else if forall|i: int| 0 <= i < s.len() ==> #[trigger] expr_matches(s[i], d, facts) {
            assert forall|i: int| 0 <= i < t.len() implies #[trigger] expr_matches(t[i], d, facts) by {
                assert(expr_matches(s[i], d, facts));
            }
            assert(expr_matches(s[s.len() - 1], d, facts));
        }
    }
}

proof fn lemma_field_test_needs_field(e: Expr, k: Seq<Seq<char>>, d: Json, facts: Seq<(Seq<char>, Option<u64>)>)
    requires
        exists_key(e) == Some(k),
        expr_matches(e, d, facts),
    ensures
        expr_matches(Expr::Exists { key: k }, d, facts),
{
    assert(leaf_key(e) == k);
    assert(json_lookup(d, k) is Ok);
}

/// Guarding a segment with existence tests does not change whether it
/// matches.
pub proof fn lemma_with_exists_matches(s: Seq<Expr>, d: Json, facts: Seq<(Seq<char>, Option<u64>)>)
    ensures
        all_match(with_exists(s), d, facts) == all_match(s, d, facts),
    decreases s.len(),
{
    if s.len() > 0 {
        let out = with_exists(s.drop_last());
        let e = s.last();
        lemma_with_exists_matches(s.drop_last(), d, facts);
        lemma_all_match_push(s.drop_last(), e, d, facts);
        assert(s.drop_last().push(e) =~= s);
        match exists_key(e) {
            Some(k) => {
                if contains_eq(out, Expr::Exists { key: k }) {
                    lemma_all_match_push(out, e, d, facts);
                } else {
                    let ex = Expr::Exists { key: k };
                    lemma_all_match_push(out, ex, d, facts);
                    lemma_all_match_push(out.push(ex), e, d, facts);
                    if expr_matches(e, d, facts) {
                        lemma_field_test_needs_field(e, k, d, facts);
                    }
                }
            },
            None => {
                lemma_all_match_push(out, e, d, facts);
            },
        }
    }
}

/// Ordering a segment does not change whether it matches.
pub proof fn lemma_sorted_segment_matches(
    seg: Seq<Expr>,
    priorities: Seq<(Seq<char>, Seq<char>)>,
    d: Json,
    facts: Seq<(Seq<char>, Option<u64>)>,
)
    ensures
        all_match(sorted_segment(seg, priorities), d, facts) == all_match(seg, d, facts),
{
    broadcast use vstd::seq_lib::to_multiset_contains;
    let t = sorted_segment(seg, priorities);
    lemma_sorted_segment_permutation(seg, priorities);
    lemma_all_match_each(seg, d, facts);
    lemma_all_match_each(t, d, facts);
    if all_match(seg, d, facts) {
        assert forall|i: int| 0 <= i < t.len() implies #[trigger] expr_matches(t[i], d, facts) by {
            assert(t.contains(t[i]));
            assert(t.to_multiset().count(t[i]) > 0);
            assert(seg.contains(t[i]));
            let j = choose|j: int| 0 <= j < seg.len() && seg[j] == t[i];
            assert(expr_matches(seg[j], d, facts));
        }
    }
    if all_match(t, d, facts) {
        assert forall|i: int| 0 <= i < seg.len() implies #[trigger] expr_matches(seg[i], d, facts) by {
            assert(seg.contains(seg[i]));
            assert(seg.to_multiset().count(seg[i]) > 0);
            assert(t.contains(seg[i]));
            let j = choose|j: int| 0 <= j < t.len() && t[j] == seg[i];
            assert(expr_matches(t[j], d, facts));
        }
    }
}

/// Without tags, each parsed segment matches exactly when the segment of
/// the negation-resolved filter it comes from does.
pub proof fn lemma_parsed_untagged_matches(
    e: Expr,
    priorities: Seq<(Seq<char>, Seq<char>)>,
    d: Json,
    facts: Seq<(Seq<char>, Option<u64>)>,
)
    ensures
        parsed(e, priorities, Seq::empty()).len() == segment_into_dnf(resolve(e)).len(),
        forall|i: int| 0 <= i < segment_into_dnf(resolve(e)).len() ==>
            all_match(#[trigger] parsed(e, priorities, Seq::empty())[i], d, facts)
                == all_match(segment_into_dnf(resolve(e))[i], d, facts),
{
    let segs = segment_into_dnf(resolve(e));
    assert forall|i: int| 0 <= i < segs.len() implies
        all_match(#[trigger] parsed(e, priorities, Seq::empty())[i], d, facts) == all_match(segs[i], d, facts) by {
        lemma_with_exists_matches(sorted_segment(segs[i], priorities), d, facts);
        lemma_sorted_segment_matches(segs[i], priorities, d, facts);
    }
}

proof fn lemma_keys_nonempty_push(s: Seq<Expr>, x: Expr)
    requires
        keys_nonempty(s),
        tag_key(unnegated(x)) matches Some(k) ==> k.len() > 0,
    ensures
        keys_nonempty(s.push(x)),
{
    assert forall|i: int| 0 <= i < s.push(x).len() implies
        (#[trigger] tag_key(unnegated(s.push(x)[i])) matches Some(k) ==> k.len() > 0) by {
        if i < s.len() {
            assert(s.push(x)[i] == s[i]);
        }
    }
}

proof fn lemma_with_exists_keys(s: Seq<Expr>)
    requires
        keys_nonempty(s),
    ensures
        keys_nonempty(with_exists(s)),
    decreases s.len(),
{
    if s.len() > 0 {
        let t = s.drop_last();
        assert forall|i: int| 0 <= i < t.len() implies
            (#[trigger] tag_key(unnegated(t[i])) matches Some(k) ==> k.len() > 0) by {
            assert(t[i] == s[i]);
        }
        lemma_with_exists_keys(t);
        let out = with_exists(t);
        let e = s.last();
        assert(tag_key(unnegated(s[s.len() - 1])) matches Some(k) ==> k.len() > 0);
        match exists_key(e) {
            Some(k) => {
                assert(tag_key(unnegated(e)) == Some(k));
                if contains_eq(out, Expr::Exists { key: k }) {
                    lemma_keys_nonempty_push(out, e);
                } else {
                    lemma_keys_nonempty_push(out, Expr::Exists { key: k });
                    lemma_keys_nonempty_push(out.push(Expr::Exists { key: k }), e);
                }
            },
            None => {
                lemma_keys_nonempty_push(out, e);
            },
        }
    }
}

proof fn lemma_sorted_keys(seg: Seq<Expr>, priorities: Seq<(Seq<char>, Seq<char>)>)
    requires
        keys_nonempty(seg),
    ensures
        keys_nonempty(sorted_segment(seg, priorities)),
{
    broadcast use vstd::seq_lib::to_multiset_contains;
    let t = sorted_segment(seg, priorities);
    lemma_sorted_segment_permutation(seg, priorities);
    assert forall|i: int| 0 <= i < t.len() implies
        (#[trigger] tag_key(unnegated(t[i])) matches Some(k) ==> k.len() > 0) by {
        assert(t.contains(t[i]));
        assert(t.to_multiset().count(t[i]) > 0);
        assert(seg.contains(t[i]));
        let j = choose|j: int| 0 <= j < seg.len() && seg[j] == t[i];
        assert(tag_key(unnegated(seg[j])) matches Some(k) ==> k.len() > 0);
    }
}

fn exists_key_ref(e: &FilterExpressionInner) -> (r: Option<&Vec<String>>)
    ensures
        match r {
            Some(k) => exists_key(e.model()) == Some(crate::field::views(k@)),
            None => exists_key(e.model()) is None,
        },
{
    match e {
        FilterExpressionInner::String { key, .. } => Some(key),
        FilterExpressionInner::Wildcard { key, .. } => Some(key),
        FilterExpressionInner::Sigma { key, .. } => Some(key),
        FilterExpressionInner::Integer { key, .. } => Some(key),
        FilterExpressionInner::Float { key, .. } => Some(key),
        FilterExpressionInner::IntegerRange { key, .. } => Some(key),
        FilterExpressionInner::FloatRange { key, .. } => Some(key),
        FilterExpressionInner::StringRange { key, .. } => Some(key),
        FilterExpressionInner::Regex { key, .. } => Some(key),
        FilterExpressionInner::Null { key } => Some(key),
        _ => None,
    }
}

/// Turns filters into rule-tree segments.
pub struct RuleParserInner;

impl RuleParserInner {
    /// The segments of a filter: negations resolved, divided into
    /// conjunctive segments, each ordered by the priorities, guarded by
    /// existence tests and, with a tag map, tagged. A tag lookup reads the
    /// first part of a field test's key, so with tags every such key must
    /// have one. The priorities and the tags are maps: no key occurs twice.
    pub fn parse(
        expr: &FilterExpressionInner,
        priority_dict: &Vec<(String, String)>,
        tag_map: &Vec<(String, String)>,
    ) -> (r: Vec<Vec<FilterExpressionInner>>)
        requires
            crate::rule::sorter::keys_distinct(pairs_view(priority_dict@)),
            crate::rule::sorter::keys_distinct(pairs_view(tag_map@)),
            tag_map@.len() == 0 || forall|i: int| 0 <= i < segment_into_dnf(resolve(expr.model())).len()
                ==> keys_nonempty(#[trigger] segment_into_dnf(resolve(expr.model()))[i]),
        ensures
            segs_model(r@) == parsed(expr.model(), pairs_view(priority_dict@), pairs_view(tag_map@)),
    {
        let resolved = DeMorganResolverInner::resolve(expr);
        let mut segments = RuleSegmenterInner::segment_into_dnf(&resolved);
        let ghost segs = segs_model(segments@);
        let ghost pr = pairs_view(priority_dict@);
        RuleSorterInner::sort_segments(&mut segments, priority_dict);
        let ghost sorted = segs_model(segments@);
        Self::add_exists_filters(&mut segments);
        proof {
            assert(sorted.len() == segs.len());
            assert forall|i: int| 0 <= i < segs.len() implies #[trigger] segs_model(segments@)[i] == prepared(segs, pr)[i] by {
                assert(sorted[i] == sorted_segment(segs[i], pr));
            }
            assert(segs_model(segments@) =~= prepared(segs, pr));
            if tag_map@.len() > 0 {
                assert forall|i: int| 0 <= i < segments@.len() implies keys_nonempty(#[trigger] segs_model(segments@)[i]) by {
                    lemma_sorted_keys(segs[i], pr);
                    lemma_with_exists_keys(sorted_segment(segs[i], pr));
                }
            }
        }
        RuleTaggerInner::add_tags(&mut segments, tag_map);
        proof {
            if tag_map@.len() == 0 {
                assert(pairs_view(tag_map@).len() == 0);
            } else {
                assert(pairs_view(tag_map@).len() > 0);
            }
        }
        segments
    }

    fn add_exists_filters(segments: &mut Vec<Vec<FilterExpressionInner>>)
        ensures
            segs_model(final(segments)@) == Seq::new(old(segments)@.len(),
                |i: int| with_exists(segs_model(old(segments)@)[i])),
    {
        let ghost before = segs_model(segments@);
        let mut out: Vec<Vec<FilterExpressionInner>> = Vec::new();
        let mut i: usize = 0;
        while i < segments.len()
            invariant
                i <= segments@.len(),
                before == segs_model(segments@),
                out@.len() == i,
                forall|j: int| 0 <= j < i ==> #[trigger] expr_models(out@[j]@) == with_exists(before[j]),
            decreases segments@.len() - i,
        {
            assert(before[i as int] == expr_models(segments@[i as int]@));
            let s = Self::guarded(&segments[i]);
            out.push(s);
            i = i + 1;
        }
        *segments = out;
        assert(segs_model(segments@) =~= Seq::new(before.len(), |i: int| with_exists(before[i])));
    }

    fn guarded(segment: &Vec<FilterExpressionInner>) -> (r: Vec<FilterExpressionInner>)
        ensures
            expr_models(r@) == with_exists(expr_models(segment@)),
    {
        let ghost sm = expr_models(segment@);
        proof { crate::filter::expression::lemma_expr_models(segment@); }
        let mut out: Vec<FilterExpressionInner> = Vec::new();
        proof { crate::filter::expression::lemma_expr_models(out@); }
        assert(expr_models(out@) =~= with_exists(sm.subrange(0, 0)));
        let mut i: usize = 0;
        while i < segment.len()
            invariant
                i <= segment@.len(),
                sm == expr_models(segment@),
                sm.len() == segment@.len(),
                forall|j: int| 0 <= j < segment@.len() ==> #[trigger] sm[j] == segment@[j].model(),
                expr_models(out@) == with_exists(sm.subrange(0, i as int)),
            decreases segment@.len() - i,
        {
            let ghost pre = sm.subrange(0, i + 1);
            assert(pre.drop_last() =~= sm.subrange(0, i as int));
            assert(pre.last() == segment@[i as int].model());
            match exists_key_ref(&segment[i]) {
                Some(k) => {
                    let ex = FilterExpressionInner::Exists { key: crate::filter::lucene::copy_strings(k) };
                    if !contains_equal(&out, &ex) {
                        push_model(&mut out, ex);
                    }
                },
                None => {},
            }
            push_model(&mut out, crate::filter::lucene::copy_expr(&segment[i]));
            i = i + 1;
        }
        assert(sm.subrange(0, segment@.len() as int) =~= sm);
        out
    }
}

/// Law: without tags, a filter matches a document exactly when one of its
/// parsed segments does, where the conjunctions its segmentation builds
/// with equal keys are equal (see [`distributes`]); with tags, a parsed segment that matches
/// means the filter matches.
pub proof fn lemma_parsed_matches(
    e: Expr,
    priorities: Seq<(Seq<char>, Seq<char>)>,
    tags: Seq<(Seq<char>, Seq<char>)>,
    d: Json,
    facts: Seq<(Seq<char>, Option<u64>)>,
)
    requires
        distributes(resolve(e)),
    ensures
        tags.len() == 0 ==> expr_matches(e, d, facts) == some_segment_matches(parsed(e, priorities, tags), d, facts),
        some_segment_matches(parsed(e, priorities, tags), d, facts) ==> expr_matches(e, d, facts),
{
    let segs = segment_into_dnf(resolve(e));
    let p = parsed(e, priorities, Seq::empty());
    crate::rule::demorgan::lemma_resolve_matches(e, d, facts);
    lemma_segment_into_dnf_matches(resolve(e), d, facts);
    lemma_parsed_untagged_matches(e, priorities, d, facts);
    if some_segment_matches(segs, d, facts) {
        let i = choose|i: int| 0 <= i < segs.len() && all_match(#[trigger] segs[i], d, facts);
        assert(all_match(p[i], d, facts));
    }
    if some_segment_matches(p, d, facts) {
        let i = choose|i: int| 0 <= i < p.len() && all_match(#[trigger] p[i], d, facts);
        assert(all_match(segs[i], d, facts));
    }
    if tags.len() > 0 && some_segment_matches(parsed(e, priorities, tags), d, facts) {
        let t = parsed(e, priorities, tags);
        let i = choose|i: int| 0 <= i < t.len() && all_match(#[trigger] t[i], d, facts);
        crate::rule::tagger::lemma_tags_only_narrow(p[i], tags, d, facts);
        assert(all_match(p[i], d, facts));
    }
}

/// Law: in a segment guarded by existence tests, every field test that
/// needs its field has an existence test on that field before it.
pub proof fn lemma_with_exists_guards(s: Seq<Expr>)
    ensures
        forall|i: int| 0 <= i < with_exists(s).len() && (#[trigger] exists_key(with_exists(s)[i])) is Some ==>
            exists|j: int| 0 <= j < i && with_exists(s)[j] == (Expr::Exists { key: exists_key(with_exists(s)[i])->Some_0 }),
    decreases s.len(),
{
    if s.len() > 0 {
        let out = with_exists(s.drop_last());
        let e = s.last();
        let w = with_exists(s);
        lemma_with_exists_guards(s.drop_last());
        assert forall|i: int| 0 <= i < w.len() && (#[trigger] exists_key(w[i])) is Some implies
            exists|j: int| 0 <= j < i && w[j] == (Expr::Exists { key: exists_key(w[i])->Some_0 }) by {
            if i < out.len() {
                assert(w[i] == out[i]);
                let j = choose|j: int| 0 <= j < i && out[j] == (Expr::Exists { key: exists_key(out[i])->Some_0 });
                assert(w[j] == out[j]);
            } else {
                match exists_key(e) {
                    Some(k) => {
                        if contains_eq(out, Expr::Exists { key: k }) {
                            let j = choose|j: int| 0 <= j < out.len() && expr_eq(#[trigger] out[j], Expr::Exists { key: k });
                            assert(out[j] == Expr::Exists { key: k });
                            assert(w[j] == out[j]);
                            assert(w[i] == e);
                        } else {
                            assert(w == out.push(Expr::Exists { key: k }).push(e));
                            if i == out.len() {
                                assert(w[i] == Expr::Exists { key: k });
                            } else {
                                assert(w[i] == e);
                                assert(w[out.len() as int] == Expr::Exists { key: k });
                            }
                        }
                    },
                    None => {
                        assert(w[i] == e);
                    },
                }
            }
        }
    }
}

} // verus!
