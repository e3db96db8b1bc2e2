//! Tagging of segments: a field listed in the tag map adds a test of its
//! tag (a field that must exist, or `field:value`) in front of the segment.
use vstd::prelude::*;
use crate::filter::expression::{expr_eq, expr_models, lemma_expr_models, Expr, FilterExpressionInner};
use crate::filter::number::find_char;
use crate::rule::segmenter::segs_model;
use crate::rule::sorter::{pair_lookup, pairs_view};
use crate::text::{split_char, vviews};

verus! {

/// The key a tag is looked up by: the field of a field test (a numeric
/// range has none here).
pub open spec fn tag_key(e: Expr) -> Option<Seq<Seq<char>>> {
    match e {
        Expr::Str { key, .. } => Some(key),
        Expr::Wildcard { key, .. } => Some(key),
        Expr::Sigma { key, .. } => Some(key),
        Expr::Integer { key, .. } => Some(key),
        Expr::Float { key, .. } => Some(key),
        Expr::IntegerRange { key, .. } => Some(key),
        Expr::FloatRange { key, .. } => Some(key),
        Expr::StringRange { key, .. } => Some(key),
        Expr::Regex { key, .. } => Some(key),
        Expr::Exists { key } => Some(key),
        Expr::Null { key } => Some(key),
        _ => None,
    }
}

/// The test a tag stands for: `field:value` (the field split at `.`) tests
/// the value, a plain name tests that the field exists.
pub open spec fn tag_expr(tag: Seq<char>) -> Expr {
    if tag.contains(':') {
        let i = find_char(tag, ':');
        Expr::Str { key: split_char(tag.subrange(0, i), '.'), expected: tag.subrange(i + 1, tag.len() as int) }
    } else {
        Expr::Exists { key: split_char(tag, '.') }
    }
}

/// `s` holds an expression equal to `x`.
pub open spec fn contains_eq(s: Seq<Expr>, x: Expr) -> bool {
    exists|i: int| 0 <= i < s.len() && expr_eq(#[trigger] s[i], x)
}

/// The expression itself, or the child of a negation.
pub open spec fn unnegated(e: Expr) -> Expr {
    match e {
        Expr::Not(c) => *c,
        _ => e,
    }
}

/// The tag tests the expressions of `s` call for, in order, leaving out
/// those `orig` already holds.
pub open spec fn tags_for(s: Seq<Expr>, tags: Seq<(Seq<char>, Seq<char>)>, orig: Seq<Expr>) -> Seq<Expr>
    decreases s.len(),
{
    if s.len() == 0 {
        Seq::empty()
    } else {
        let rest = tags_for(s.drop_last(), tags, orig);
        match tag_key(unnegated(s.last())) {
            Some(key) => match pair_lookup(tags, key[0]) {
                Some(v) => if contains_eq(orig, tag_expr(v)) { rest } else { rest.push(tag_expr(v)) },
                None => rest,
            },
            None => rest,
        }
    }
}

/// Law: tagging looks through a negation: negating a test of a segment
/// leaves the tag tests the segment calls for unchanged.
pub proof fn lemma_tags_ignore_negation(
    s: Seq<Expr>,
    i: int,
    tags: Seq<(Seq<char>, Seq<char>)>,
    orig: Seq<Expr>,
)
    requires
        0 <= i < s.len(),
        !(s[i] is Not),
    ensures
        tags_for(s.update(i, Expr::Not(Box::new(s[i]))), tags, orig) == tags_for(s, tags, orig),
    decreases s.len(),
{
    let u = s.update(i, Expr::Not(Box::new(s[i])));
    if i == s.len() - 1 {
        assert(u.drop_last() =~= s.drop_last());
        assert(unnegated(u.last()) == unnegated(s.last()));
    } else {
        assert(u.drop_last() =~= s.drop_last().update(i, Expr::Not(Box::new(s.drop_last()[i]))));
        assert(u.last() == s.last());
        lemma_tags_ignore_negation(s.drop_last(), i, tags, orig);
    }
}

/// Law: a segment of one negated field test calls for the same tag tests as
/// the test itself.
pub proof fn lemma_negated_test_tagged(e: Expr, tags: Seq<(Seq<char>, Seq<char>)>, orig: Seq<Expr>)
    requires
        !(e is Not),
    ensures
        tags_for(seq![Expr::Not(Box::new(e))], tags, orig) == tags_for(seq![e], tags, orig),
{
    assert(seq![e].update(0, Expr::Not(Box::new(seq![e][0]))) =~= seq![Expr::Not(Box::new(e))]);
    lemma_tags_ignore_negation(seq![e], 0, tags, orig);
}

/// A segment with its tag tests in front.
pub open spec fn tagged_segment(seg: Seq<Expr>, tags: Seq<(Seq<char>, Seq<char>)>) -> Seq<Expr> {
    tags_for(seg, tags, seg) + seg
}

/// Tags only narrow a segment: a tagged segment that matches an event means
/// the segment itself matches it.
pub proof fn lemma_tags_only_narrow(
    seg: Seq<Expr>,
    tags: Seq<(Seq<char>, Seq<char>)>,
    d: crate::value::Json,
    facts: Seq<(Seq<char>, Option<u64>)>,
)
    ensures
        crate::filter::expression::all_match(tagged_segment(seg, tags), d, facts)
            ==> crate::filter::expression::all_match(seg, d, facts),
{
    let t = tagged_segment(seg, tags);
    let n = tags_for(seg, tags, seg).len();
    crate::rule::parser::lemma_all_match_each(t, d, facts);
    crate::rule::parser::lemma_all_match_each(seg, d, facts);
    if crate::filter::expression::all_match(t, d, facts) {
        assert forall|i: int| 0 <= i < seg.len() implies #[trigger] crate::filter::expression::expr_matches(seg[i], d, facts) by {
            assert(t[n + i] == seg[i]);
            assert(crate::filter::expression::expr_matches(t[n + i], d, facts));
        }
    }
}

/// Every field test (under at most one negation) has a non-empty key.
pub open spec fn keys_nonempty(seg: Seq<Expr>) -> bool {
    forall|i: int| 0 <= i < seg.len() ==> (#[trigger] tag_key(unnegated(seg[i])) matches Some(k) ==> k.len() > 0)
}

pub(crate) fn contains_equal(s: &Vec<FilterExpressionInner>, x: &FilterExpressionInner) -> (r: bool)
    ensures
        r == contains_eq(expr_models(s@), x.model()),
{
    proof { lemma_expr_models(s@); }
    let mut i: usize = 0;
    while i < s.len()
        invariant
            i <= s@.len(),
            expr_models(s@).len() == s@.len(),
            forall|j: int| 0 <= j < s@.len() ==> #[trigger] expr_models(s@)[j] == s@[j].model(),
            forall|j: int| 0 <= j < i ==> !expr_eq(#[trigger] expr_models(s@)[j], x.model()),
        decreases s@.len() - i,
    {
        if s[i].equals(x) {
            assert(expr_eq(expr_models(s@)[i as int], x.model()));
            return true;
        }
        i = i + 1;
    }
    false
}

fn split_to_strings(s: &[char], c: char) -> (r: Vec<String>)
    ensures
        crate::field::views(r@) == split_char(s@, c),
{
    let parts = crate::text::split_on_char(s, c);
    let mut out: Vec<String> = Vec::new();
    let mut i: usize = 0;
    while i < parts.len()
        invariant
            i <= parts@.len(),
            out@.len() == i,
            forall|j: int| 0 <= j < i ==> #[trigger] out@[j]@ == parts@[j]@,
        decreases parts@.len() - i,
    {
        out.push(crate::text::string_of(parts[i].as_slice()));
        i = i + 1;
    }
    assert(crate::field::views(out@) =~= vviews(parts@));
    out
}

/// The test a tag stands for (see [`tag_expr`]).
fn tag_expression(tag: &str) -> (r: FilterExpressionInner)
    ensures
        r.model() == tag_expr(tag@),
{
    let t = crate::text::chars_of(tag);
    if crate::text::contains_char(t.as_slice(), ':') {
        let mut i: usize = 0;
        assert(t@.subrange(0, t@.len() as int) =~= t@);
        while i < t.len() && t[i] != ':'
            invariant
                i <= t@.len(),
                find_char(t@, ':') == i + find_char(t@.subrange(i as int, t@.len() as int), ':'),
            decreases t@.len() - i,
        {
            let ghost u = t@.subrange(i as int, t@.len() as int);
            assert(u.subrange(1, u.len() as int) =~= t@.subrange(i + 1, t@.len() as int));
            i = i + 1;
        }
        proof { crate::filter::number::lemma_find_char_bound(t@.subrange(i as int, t@.len() as int), ':'); }
        if i == t.len() {
            proof { crate::filter::number::lemma_find_char_bound(t@, ':'); }
            assert(false);
        }
        let key = split_to_strings(vstd::slice::slice_subrange(t.as_slice(), 0, i), '.');
        let value = crate::text::string_of(crate::filter::number::slice_from(t.as_slice(), i + 1));
        FilterExpressionInner::String { key, expected: value }
    } else {
        FilterExpressionInner::Exists { key: split_to_strings(t.as_slice(), '.') }
    }
}

/// Adds tag tests to segments.
pub struct RuleTaggerInner;

impl RuleTaggerInner {
    /// Puts the tag tests each segment calls for in front of it (nothing
    /// happens with an empty tag map).
    pub fn add_tags(segments: &mut Vec<Vec<FilterExpressionInner>>, tag_map: &Vec<(String, String)>)
        requires
            crate::rule::sorter::keys_distinct(pairs_view(tag_map@)),
            tag_map@.len() == 0 || forall|i: int| 0 <= i < old(segments)@.len()
                ==> keys_nonempty(#[trigger] segs_model(old(segments)@)[i]),
        ensures
            segs_model(final(segments)@) == (if tag_map@.len() == 0 { segs_model(old(segments)@) } else {
                Seq::new(old(segments)@.len(), |i: int| tagged_segment(segs_model(old(segments)@)[i], pairs_view(tag_map@)))
            }),
    {
        if tag_map.len() == 0 {
            return;
        }
        let ghost before = segs_model(segments@);
        let mut out: Vec<Vec<FilterExpressionInner>> = Vec::new();
        let mut i: usize = 0;
        while i < segments.len()
            invariant
                i <= segments@.len(),
                before == segs_model(segments@),
                tag_map@.len() > 0,
                forall|j: int| 0 <= j < segments@.len() ==> keys_nonempty(#[trigger] before[j]),
                out@.len() == i,
                forall|j: int| 0 <= j < i ==> #[trigger] expr_models(out@[j]@) == tagged_segment(before[j], pairs_view(tag_map@)),
            decreases segments@.len() - i,
        {
            assert(before[i as int] == expr_models(segments@[i as int]@));
            let t = Self::add_tags_to_segment(&segments[i], tag_map);
            out.push(t);
            i = i + 1;
        }
        *segments = out;
        assert(segs_model(segments@) =~= Seq::new(before.len(), |i: int| tagged_segment(before[i], pairs_view(tag_map@))));
    }

    fn add_tags_to_segment(segment: &Vec<FilterExpressionInner>, tag_map: &Vec<(String, String)>) -> (r: Vec<FilterExpressionInner>)
        requires
            keys_nonempty(expr_models(segment@)),
        ensures
            expr_models(r@) == tagged_segment(expr_models(segment@), pairs_view(tag_map@)),
    {
        let ghost sm = expr_models(segment@);
        let ghost tm = pairs_view(tag_map@);
        proof { lemma_expr_models(segment@); }
        let mut tags: Vec<FilterExpressionInner> = Vec::new();
        proof { lemma_expr_models(tags@); }
        assert(expr_models(tags@) =~= tags_for(sm.subrange(0, 0), tm, sm));
        let mut i: usize = 0;
        while i < segment.len()
            invariant
                i <= segment@.len(),
                sm == expr_models(segment@),
                sm.len() == segment@.len(),
                forall|j: int| 0 <= j < segment@.len() ==> #[trigger] sm[j] == segment@[j].model(),
                keys_nonempty(sm),
                tm == pairs_view(tag_map@),
                expr_models(tags@) == tags_for(sm.subrange(0, i as int), tm, sm),
            decreases segment@.len() - i,
        {
            let ghost pre = sm.subrange(0, i + 1);
            assert(pre.drop_last() =~= sm.subrange(0, i as int));
            assert(pre.last() == segment@[i as int].model());
            let inner: &FilterExpressionInner = match &segment[i] {
                FilterExpressionInner::Not { child } => child,
                other => other,
            };
            assert(inner.model() == unnegated(sm[i as int]));
            match tag_key_ref(inner) {
                Some(key) => {
                    assert(key@.len() > 0);
                    match crate::rule::sorter::lookup_pair(tag_map, key[0].as_str()) {
                        Some(v) => {
                            let te = tag_expression(v.as_str());
                            if !contains_equal(segment, &te) {
                                let ghost b = tags@;
                                tags.push(te);
                                proof {
                                    lemma_expr_models(b);
                                    lemma_expr_models(tags@);
                                    assert(expr_models(tags@) =~= expr_models(b).push(te.model()));
                                }
                            }
                        },
                        None => {},
                    }
                },
                None => {},
            }
            i = i + 1;
        }
        assert(sm.subrange(0, segment@.len() as int) =~= sm);
        let mut out = tags;
        let mut k: usize = 0;
        let ghost tgs = expr_models(out@);
        while k < segment.len()
            invariant
                k <= segment@.len(),
                sm == expr_models(segment@),
                sm.len() == segment@.len(),
                forall|j: int| 0 <= j < segment@.len() ==> #[trigger] sm[j] == segment@[j].model(),
                expr_models(out@) == tgs + sm.subrange(0, k as int),
            decreases segment@.len() - k,
        {
            let ghost b = out@;
            out.push(crate::filter::lucene::copy_expr(&segment[k]));
            proof {
                lemma_expr_models(b);
                lemma_expr_models(out@);
                assert(expr_models(out@) =~= expr_models(b).push(sm[k as int]));
                assert(sm.subrange(0, k + 1) =~= sm.subrange(0, k as int).push(sm[k as int]));
            }
            k = k + 1;
        }
        assert(sm.subrange(0, segment@.len() as int) =~= sm);
        out
    }
}

fn tag_key_ref(e: &FilterExpressionInner) -> (r: Option<&Vec<String>>)
    ensures
        match r {
            Some(k) => tag_key(e.model()) == Some(crate::field::views(k@)),
            None => tag_key(e.model()) is None,
        },
{
    match e {
        FilterExpressionInner::String { key, .. } => Some(key),
        FilterExpressionInner::Wildcard { key, .. } => Some(key),
        FilterExpressionInner::Sigma { key, .. } => Some(key),
        FilterExpressionInner::Integer { key, .. } => Some(key),
        FilterExpressionInner::Float { key, .. } => Some(key),
        FilterExpressionInner::IntegerRange { key, .. } => Some(key),
        FilterExpressionInner::FloatRange { key, .. } => Some(key),
        FilterExpressionInner::StringRange { key, .. } => Some(key),
        FilterExpressionInner::Regex { key, .. } => Some(key),
        FilterExpressionInner::Exists { key } => Some(key),
        FilterExpressionInner::Null { key } => Some(key),
        _ => None,
    }
}

} // verus!
