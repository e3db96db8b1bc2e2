//! Ordering of the expressions inside each segment: by a priority given to
//! their field, else by their text; the match-all expression first.
use vstd::prelude::*;
use crate::field::join_with;
use crate::filter::expression::{expr_models, expr_text, lemma_expr_models, Expr, FilterExpressionInner};
use crate::rule::order::{
    keyed_view, lemma_sort_map, lemma_sort_perm, lemma_sort_sorted, lemma_sort_unkeyed, map_values_keyed, sort_by_key,
    stable_sort_by_key, unkeyed,
};
use crate::filter::number::seq_lt;
use crate::rule::segmenter::segs_model;

verus! {

/// The value of the first pair with key `k`.
pub open spec fn pair_lookup(m: Seq<(Seq<char>, Seq<char>)>, k: Seq<char>) -> Option<Seq<char>>
    decreases m.len(),
{
    if m.len() == 0 {
        None
    } else if m[0].0 == k {
        Some(m[0].1)
    } else {
        pair_lookup(m.subrange(1, m.len() as int), k)
    }
}

/// No key occurs twice (as in the map the pairs stand for).
pub open spec fn keys_distinct(m: Seq<(Seq<char>, Seq<char>)>) -> bool {
    forall|i: int, j: int| 0 <= i < j < m.len() ==> #[trigger] m[i].0 != #[trigger] m[j].0
}

pub open spec fn pairs_view(m: Seq<(String, String)>) -> Seq<(Seq<char>, Seq<char>)> {
    Seq::new(m.len(), |i: int| (m[i].0@, m[i].1@))
}

/// The key of a field test, if the expression is one.
pub open spec fn field_key(e: Expr) -> Option<Seq<Seq<char>>> {
    match e {
        Expr::Str { key, .. } => Some(key),
        Expr::Wildcard { key, .. } => Some(key),
        Expr::Sigma { key, .. } => Some(key),
        Expr::Integer { key, .. } => Some(key),
        Expr::Float { key, .. } => Some(key),
        Expr::IntegerRange { key, .. } => Some(key),
        Expr::FloatRange { key, .. } => Some(key),
        Expr::NumericRange { key, .. } => Some(key),
        Expr::StringRange { key, .. } => Some(key),
        Expr::Regex { key, .. } => Some(key),
        Expr::Exists { key } => Some(key),
        Expr::Null { key } => Some(key),
        _ => None,
    }
}

/// What an expression is ordered by: nothing for the match-all expression
/// (it comes first), the child's key for a negation, the priority of the
/// field (its parts joined with `.`) when one is given, else the text.
pub open spec fn sort_key(e: Expr, priorities: Seq<(Seq<char>, Seq<char>)>) -> Option<Seq<char>>
    decreases e,
{
    match e {
        Expr::Always(_) => None,
        Expr::Not(c) => sort_key(*c, priorities),
        _ => match field_key(e) {
            Some(key) => match pair_lookup(priorities, join_with(key, seq!['.'])) {
                Some(p) => Some(p),
                None => Some(expr_text(e)),
            },
            None => Some(expr_text(e)),
        },
    }
}

/// The order of [`sort_key`] values as strings: nothing before everything.
pub open spec fn key_string(k: Option<Seq<char>>) -> Seq<char> {
    match k {
        None => Seq::empty(),
        Some(s) => seq!['s'] + s,
    }
}

/// A segment ordered by [`sort_key`], expressions with equal keys in their
/// original order.
pub open spec fn sorted_segment(seg: Seq<Expr>, priorities: Seq<(Seq<char>, Seq<char>)>) -> Seq<Expr> {
    unkeyed(sort_by_key(Seq::new(seg.len(), |i: int| (key_string(sort_key(seg[i], priorities)), seg[i]))))
}

/// Ordering a segment only reorders it: the same expressions come out,
/// each as often as it went in.
pub proof fn lemma_sorted_segment_permutation(seg: Seq<Expr>, priorities: Seq<(Seq<char>, Seq<char>)>)
    ensures
        sorted_segment(seg, priorities).to_multiset() == seg.to_multiset(),
        sorted_segment(seg, priorities).len() == seg.len(),
{
    let keyed = Seq::new(seg.len(), |i: int| (key_string(sort_key(seg[i], priorities)), seg[i]));
    lemma_sort_unkeyed(keyed);
    assert(unkeyed(keyed) =~= seg);
}

pub fn lookup_pair(m: &Vec<(String, String)>, k: &str) -> (r: Option<String>)
    ensures
        match r {
            Some(v) => pair_lookup(pairs_view(m@), k@) == Some(v@),
            None => pair_lookup(pairs_view(m@), k@) is None,
        },
{
    let ghost pv = pairs_view(m@);
    let mut i: usize = 0;
    assert(pv.subrange(0, pv.len() as int) =~= pv);
    while i < m.len()
        invariant
            i <= m@.len(),
            pv == pairs_view(m@),
            pair_lookup(pv, k@) == pair_lookup(pv.subrange(i as int, pv.len() as int), k@),
        decreases m@.len() - i,
    {
        let ghost rest = pv.subrange(i as int, pv.len() as int);
        assert(rest.subrange(1, rest.len() as int) =~= pv.subrange(i + 1, pv.len() as int));
        assert(rest[0] == (m@[i as int].0@, m@[i as int].1@));
        if crate::value::str_eq(m[i].0.as_str(), k) {
            return Some(m[i].1.clone());
        }
        i = i + 1;
    }
    None
}

fn field_key_ref(e: &FilterExpressionInner) -> (r: Option<&Vec<String>>)
    ensures
        match r {
            Some(k) => field_key(e.model()) == Some(crate::field::views(k@)),
            None => field_key(e.model()) is None,
        },
{
    match e {
        FilterExpressionInner::String { key, .. } => Some(key),
        FilterExpressionInner::Wildcard { key, .. } => Some(key),
        FilterExpressionInner::Sigma { key, .. } => Some(key),
        FilterExpressionInner::Integer { key, .. } => Some(key),
        FilterExpressionInner::Float { key, .. } => Some(key),
        FilterExpressionInner::IntegerRange { key, .. } => Some(key),
        FilterExpressionInner::FloatRange { key, .. } => Some(key),
        FilterExpressionInner::NumericRange { key, .. } => Some(key),
        FilterExpressionInner::StringRange { key, .. } => Some(key),
        FilterExpressionInner::Regex { key, .. } => Some(key),
        FilterExpressionInner::Exists { key } => Some(key),
        FilterExpressionInner::Null { key } => Some(key),
        _ => None,
    }
}

/// Orders the expressions of segments.
pub struct RuleSorterInner;

impl RuleSorterInner {
    /// Orders each segment by [`sort_key`], stably. The priorities are a map
    /// from dotted field names: no name occurs twice.
    pub fn sort_segments(segments: &mut Vec<Vec<FilterExpressionInner>>, priority_dict: &Vec<(String, String)>)
        requires
            keys_distinct(pairs_view(priority_dict@)),
        ensures
            segs_model(final(segments)@) == Seq::new(old(segments)@.len(),
                |i: int| sorted_segment(segs_model(old(segments)@)[i], pairs_view(priority_dict@))),
    {
        let ghost pr = pairs_view(priority_dict@);
        let ghost before = segs_model(segments@);
        let mut out: Vec<Vec<FilterExpressionInner>> = Vec::new();
        let mut i: usize = 0;
        while i < segments.len()
            invariant
                i <= segments@.len(),
                before == segs_model(segments@),
                pr == pairs_view(priority_dict@),
                out@.len() == i,
                forall|j: int| 0 <= j < i ==> #[trigger] expr_models(out@[j]@) == sorted_segment(before[j], pr),
            decreases segments@.len() - i,
        {
            let s = Self::sort_segment(&segments[i], priority_dict);
            out.push(s);
            i = i + 1;
        }
        *segments = out;
        assert(segs_model(segments@) =~= Seq::new(before.len(), |i: int| sorted_segment(before[i], pr)));
    }

    fn sort_segment(seg: &Vec<FilterExpressionInner>, priority_dict: &Vec<(String, String)>) -> (r: Vec<FilterExpressionInner>)
        ensures
            expr_models(r@) == sorted_segment(expr_models(seg@), pairs_view(priority_dict@)),
    {
        let ghost sm = expr_models(seg@);
        let ghost pr = pairs_view(priority_dict@);
        proof { lemma_expr_models(seg@); }
        let mut items: Vec<(Vec<char>, FilterExpressionInner)> = Vec::new();
        let mut i: usize = 0;
        while i < seg.len()
            invariant
                i <= seg@.len(),
                sm == expr_models(seg@),
                sm.len() == seg@.len(),
                forall|j: int| 0 <= j < seg@.len() ==> #[trigger] sm[j] == seg@[j].model(),
                pr == pairs_view(priority_dict@),
                items@.len() == i,
                forall|j: int| 0 <= j < i ==> #[trigger] items@[j].0@ == key_string(sort_key(sm[j], pr))
                    && items@[j].1.model() == sm[j],
            decreases seg@.len() - i,
        {
            let k = Self::sorting_key(&seg[i], priority_dict);
            let mut kc: Vec<char> = Vec::new();
            match k {
                None => {},
                Some(t) => {
                    kc.push('s');
                    crate::text::push_all(&mut kc, crate::text::chars_of(t.as_str()).as_slice());
                },
            }
            assert(kc@ =~= key_string(sort_key(sm[i as int], pr)));
            items.push((kc, crate::filter::lucene::copy_expr(&seg[i])));
            i = i + 1;
        }
        let sorted = stable_sort_by_key(items);
        let ghost g = |e: FilterExpressionInner| e.model();
        let ghost keyed = Seq::new(sm.len(), |j: int| (key_string(sort_key(sm[j], pr)), sm[j]));
        proof {
            assert(map_values_keyed(keyed_view(items@), g) =~= keyed);
            lemma_sort_map(keyed_view(items@), g);
        }
        let mut out: Vec<FilterExpressionInner> = Vec::new();
        let mut d: usize = 0;
        while d < sorted.len()
            invariant
                d <= sorted@.len(),
                out@.len() == d,
                forall|j: int| 0 <= j < d ==> #[trigger] out@[j].model() == sorted@[j].1.model(),
            decreases sorted@.len() - d,
        {
            out.push(crate::filter::lucene::copy_expr(&sorted[d].1));
            d = d + 1;
        }
        proof {
            lemma_expr_models(out@);
            assert(map_values_keyed(keyed_view(sorted@), g) =~= sort_by_key(keyed));
            assert(expr_models(out@) =~= unkeyed(sort_by_key(keyed)));
        }
        out
    }

    /// What an expression is ordered by (see [`sort_key`]).
    fn sorting_key(expr: &FilterExpressionInner, priority_dict: &Vec<(String, String)>) -> (r: Option<String>)
        ensures
            match r {
                Some(s) => sort_key(expr.model(), pairs_view(priority_dict@)) == Some(s@),
                None => sort_key(expr.model(), pairs_view(priority_dict@)) is None,
            },
        decreases expr,
    {
        match expr {
            FilterExpressionInner::Always { .. } => None,
            FilterExpressionInner::Not { child } => Self::sorting_key(child, priority_dict),
            _ => match field_key_ref(expr) {
                Some(key) => {
                    let dotted = crate::field::join_dotted_fields(key.as_slice());
                    match lookup_pair(priority_dict, dotted.as_str()) {
                        Some(p) => Some(p),
                        None => Some(expr.to_repr()),
                    }
                },
                None => Some(expr.to_repr()),
            },
        }
    }
}

/// Law: a sorted segment is ordered by [`sort_key`]: keys never decrease,
/// so the match-all expressions (and their negations) come first.
pub proof fn lemma_sorted_segment_order(seg: Seq<Expr>, priorities: Seq<(Seq<char>, Seq<char>)>)
    ensures
        forall|i: int, j: int| #![trigger sorted_segment(seg, priorities)[i], sorted_segment(seg, priorities)[j]]
            0 <= i < j < sorted_segment(seg, priorities).len() ==>
            !seq_lt(key_string(sort_key(sorted_segment(seg, priorities)[j], priorities)),
                key_string(sort_key(sorted_segment(seg, priorities)[i], priorities))),
        forall|i: int, j: int| #![trigger sorted_segment(seg, priorities)[i], sorted_segment(seg, priorities)[j]]
            0 <= i < j < sorted_segment(seg, priorities).len()
            && sort_key(sorted_segment(seg, priorities)[j], priorities) is None
            ==> sort_key(sorted_segment(seg, priorities)[i], priorities) is None,
{
    broadcast use vstd::seq_lib::to_multiset_contains;
    let keyed = Seq::new(seg.len(), |i: int| (key_string(sort_key(seg[i], priorities)), seg[i]));
    let sorted = sort_by_key(keyed);
    let out = sorted_segment(seg, priorities);
    lemma_sort_perm(keyed);
    lemma_sort_sorted(keyed);
    lemma_sort_unkeyed(keyed);
    assert forall|k: int| 0 <= k < sorted.len() implies #[trigger] sorted[k].0 == key_string(sort_key(sorted[k].1, priorities)) by {
        assert(sorted.contains(sorted[k]));
        assert(sorted.to_multiset().count(sorted[k]) > 0);
        assert(keyed.contains(sorted[k]));
        let m = choose|m: int| 0 <= m < keyed.len() && keyed[m] == sorted[k];
    }
    assert forall|i: int, j: int| #![trigger out[i], out[j]] 0 <= i < j < out.len() implies
        !seq_lt(key_string(sort_key(out[j], priorities)), key_string(sort_key(out[i], priorities))) by {
        assert(out[i] == sorted[i].1 && out[j] == sorted[j].1);
        assert(sorted[i].0 == key_string(sort_key(sorted[i].1, priorities)));
        assert(sorted[j].0 == key_string(sort_key(sorted[j].1, priorities)));
    }
    assert forall|i: int, j: int| #![trigger out[i], out[j]] 0 <= i < j < out.len() && sort_key(out[j], priorities) is None
        implies sort_key(out[i], priorities) is None by {
        assert(!seq_lt(key_string(sort_key(out[j], priorities)), key_string(sort_key(out[i], priorities))));
        if let Some(k) = sort_key(out[i], priorities) {
            assert(key_string(sort_key(out[i], priorities)).len() > 0);
            assert(key_string(sort_key(out[j], priorities)).len() == 0);
        }
    }
}

} // verus!
