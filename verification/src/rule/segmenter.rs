//! Division of a (negation-resolved) filter into conjunctive segments: the
//! disjunctive normal form that the rule tree stores.
use vstd::prelude::*;
use crate::field::join_with;
use crate::filter::expression::{all_match, any_match, expr_matches, expr_models, expr_text, lemma_expr_models, Expr, FilterExpressionInner};
use crate::rule::parser::lemma_all_match_each;
use crate::value::Json;
use crate::filter::lucene::{copy_expr, copy_exprs};
use crate::rule::order::{
    dedup_by_key, dedup_keyed, keyed_view, lemma_dedup_map, lemma_sort_map, map_values_keyed,
    sort_by_key, stable_sort_by_key, unkeyed,
};

verus! {

/// The expression holds an `Or` somewhere below `And`s and `Not`s.
pub open spec fn has_disjunction(e: Expr) -> bool
    decreases e, 0int,
{
    match e {
        Expr::Or(_) => true,
        Expr::And(cs) => any_disjunction(cs),
        Expr::Not(c) => has_disjunction(*c),
        _ => false,
    }
}

pub open spec fn any_disjunction(cs: Seq<Expr>) -> bool
    decreases cs, 0int,
{
    if cs.len() == 0 {
        false
    } else {
        proof {
            assert(decreases_to!(cs => cs[cs.len() - 1]));
            assert(decreases_to!(cs => cs.subrange(0, cs.len() - 1)));
        }
        any_disjunction(cs.subrange(0, cs.len() - 1)) || has_disjunction(cs[cs.len() - 1])
    }
}

/// The conjuncts of nested `And`s, in order.
pub open spec fn conjuncts(e: Expr) -> Seq<Expr>
    decreases e, 0int,
{
    match e {
        Expr::And(cs) => conjuncts_all(cs),
        _ => seq![e],
    }
}

pub open spec fn conjuncts_all(cs: Seq<Expr>) -> Seq<Expr>
    decreases cs, 0int,
{
    if cs.len() == 0 {
        Seq::empty()
    } else {
        proof {
            assert(decreases_to!(cs => cs[cs.len() - 1]));
            assert(decreases_to!(cs => cs.subrange(0, cs.len() - 1)));
        }
        conjuncts_all(cs.subrange(0, cs.len() - 1))
            + (if cs[cs.len() - 1] is And { conjuncts(cs[cs.len() - 1]) } else { seq![cs[cs.len() - 1]] })
    }
}

/// The segments of an expression.
pub open spec fn segments(e: Expr) -> Seq<Seq<Expr>>
    decreases e, 1int,
{
    if !has_disjunction(e) {
        if e is And { seq![conjuncts(e)] } else { seq![seq![e]] }
    } else {
        match e {
            Expr::Or(cs) => segments_disjunctive(cs),
            Expr::And(cs) => convert(clauses(segments_each(cs))),
            _ => seq![seq![e]],
        }
    }
}

/// The segments of each alternative, one after the other.
pub open spec fn segments_disjunctive(cs: Seq<Expr>) -> Seq<Seq<Expr>>
    decreases cs, 1int,
{
    if cs.len() == 0 {
        Seq::empty()
    } else {
        proof {
            assert(decreases_to!(cs => cs[cs.len() - 1]));
            assert(decreases_to!(cs => cs.subrange(0, cs.len() - 1)));
        }
        segments_disjunctive(cs.subrange(0, cs.len() - 1)) + segments(cs[cs.len() - 1])
    }
}

/// The segments of each expression.
pub open spec fn segments_each(cs: Seq<Expr>) -> Seq<Seq<Seq<Expr>>>
    decreases cs, 1int,
{
    if cs.len() == 0 {
        Seq::empty()
    } else {
        proof {
            assert(decreases_to!(cs => cs[cs.len() - 1]));
            assert(decreases_to!(cs => cs.subrange(0, cs.len() - 1)));
        }
        segments_each(cs.subrange(0, cs.len() - 1)).push(segments(cs[cs.len() - 1]))
    }
}

/// A segment list as one expression: a single expression, the `And` of a
/// single segment, or the `Or` of the segments.
pub open spec fn clause_of(seg: Seq<Seq<Expr>>) -> Expr {
    if seg.len() == 1 && seg[0].len() == 1 {
        seg[0][0]
    } else if seg.len() == 1 {
        Expr::And(seg[0])
    } else {
        Expr::Or(Seq::new(seg.len(), |i: int| if seg[i].len() == 1 { seg[i][0] } else { Expr::And(seg[i]) }))
    }
}

pub open spec fn clauses(segs: Seq<Seq<Seq<Expr>>>) -> Seq<Expr> {
    Seq::new(segs.len(), |i: int| clause_of(segs[i]))
}

/// The expressions that are not `Or`, in order.
pub open spec fn non_or(cnf: Seq<Expr>) -> Seq<Expr>
    decreases cnf.len(),
{
    if cnf.len() == 0 {
        Seq::empty()
    } else if cnf.last() is Or {
        non_or(cnf.drop_last())
    } else {
        non_or(cnf.drop_last()).push(cnf.last())
    }
}

/// The alternatives of each `Or`, in order.
pub open spec fn or_groups(cnf: Seq<Expr>) -> Seq<Seq<Expr>>
    decreases cnf.len(),
{
    if cnf.len() == 0 {
        Seq::empty()
    } else {
        match cnf.last() {
            Expr::Or(cs) => or_groups(cnf.drop_last()).push(cs),
            _ => or_groups(cnf.drop_last()),
        }
    }
}

/// Each segment extended by each alternative of `g` in turn, in order.
pub open spec fn extend_by(segs: Seq<Seq<Expr>>, g: Seq<Expr>) -> Seq<Seq<Expr>>
    decreases segs.len(),
{
    if segs.len() == 0 {
        Seq::empty()
    } else {
        extend_by(segs.drop_last(), g) + Seq::new(g.len(), |i: int| segs.last().push(g[i]))
    }
}

/// The segments extended by one alternative of each group, for every choice
/// of alternatives (the cartesian product), the groups taken in order.
pub open spec fn extend_all(segs: Seq<Seq<Expr>>, groups: Seq<Seq<Expr>>) -> Seq<Seq<Expr>>
    decreases groups.len(),
{
    if groups.len() == 0 {
        segs
    } else {
        extend_all(extend_by(segs, groups[0]), groups.subrange(1, groups.len() as int))
    }
}

/// For each alternative `x` of the first `Or`, `x` followed by the other
/// clauses.
pub open spec fn first_segments(first: Seq<Expr>, rest_and: Seq<Expr>) -> Seq<Seq<Expr>> {
    Seq::new(first.len(), |i: int| seq![first[i]] + rest_and)
}

/// The conjunctions of a conjunction of clauses with at least one `Or`: an
/// alternative of the first `Or`, the other clauses, then an alternative of
/// each later `Or`, for every choice of alternatives.
pub open spec fn raw_segments(cnf: Seq<Expr>) -> Seq<Seq<Expr>> {
    let groups = or_groups(cnf);
    extend_all(first_segments(groups[0], non_or(cnf)), groups.subrange(1, groups.len() as int))
}

/// The key segments are ordered by: their expressions' texts joined with `|`.
pub open spec fn segment_key(seg: Seq<Expr>) -> Seq<char> {
    join_with(Seq::new(seg.len(), |i: int| expr_text(seg[i])), seq!['|'])
}

pub open spec fn keyed_segments(segs: Seq<Seq<Expr>>) -> Seq<(Seq<char>, Seq<Expr>)> {
    Seq::new(segs.len(), |i: int| (segment_key(segs[i]), segs[i]))
}


/// The conjunctive segments of a conjunction of clauses (its disjunctive
/// normal form by the distributive law, see [`raw_segments`]), ordered by
/// [`segment_key`] without repeated keys.
pub open spec fn convert(cnf: Seq<Expr>) -> Seq<Seq<Expr>> {
    if or_groups(cnf).len() == 0 {
        seq![cnf]
    } else {
        unkeyed(dedup_by_key(sort_by_key(keyed_segments(raw_segments(cnf)))))
    }
}

/// The segments of an expression, the entry point of segmentation.
pub open spec fn segment_into_dnf(e: Expr) -> Seq<Seq<Expr>> {
    if has_disjunction(e) {
        segments(e)
    } else if e is And {
        seq![conjuncts(e)]
    } else {
        seq![seq![e]]
    }
}

pub open spec fn segs_model(v: Seq<Vec<FilterExpressionInner>>) -> Seq<Seq<Expr>> {
    Seq::new(v.len(), |i: int| expr_models(v[i]@))
}

pub proof fn lemma_segs_push(v: Seq<Vec<FilterExpressionInner>>, x: Vec<FilterExpressionInner>)
    ensures
        segs_model(v.push(x)) == segs_model(v).push(expr_models(x@)),
{
    assert(segs_model(v.push(x)) =~= segs_model(v).push(expr_models(x@)));
}

pub(crate) fn push_model(out: &mut Vec<FilterExpressionInner>, x: FilterExpressionInner)
    ensures
        expr_models(final(out)@) == expr_models(old(out)@).push(x.model()),
{
    let ghost before = out@;
    out.push(x);
    proof {
        lemma_expr_models(before);
        lemma_expr_models(out@);
        assert(expr_models(out@) =~= expr_models(before).push(x.model()));
    }
}

fn append_models(out: &mut Vec<FilterExpressionInner>, xs: Vec<FilterExpressionInner>)
    ensures
        expr_models(final(out)@) == expr_models(old(out)@) + expr_models(xs@),
{
    let ghost start = expr_models(out@);
    proof { lemma_expr_models(xs@); }
    let mut rest = xs;
    let mut stack: Vec<FilterExpressionInner> = Vec::new();
    let ghost src = expr_models(rest@);
    while rest.len() > 0
        invariant
            expr_models(rest@) + expr_models(stack@).reverse() == src,
        decreases rest@.len(),
    {
        let ghost br = rest@;
        let ghost bs = stack@;
        let x = rest.pop().unwrap();
        stack.push(x);
        proof {
            lemma_expr_models(br);
            lemma_expr_models(rest@);
            lemma_expr_models(bs);
            lemma_expr_models(stack@);
            assert(expr_models(br) =~= expr_models(rest@).push(x.model()));
            assert(expr_models(stack@) =~= expr_models(bs).push(x.model()));
            assert(expr_models(stack@).reverse() =~= seq![x.model()] + expr_models(bs).reverse());
        }
    }
    proof { lemma_expr_models(rest@); assert(expr_models(rest@) =~= Seq::<Expr>::empty()); }
    assert(expr_models(stack@).reverse() =~= src);
    while stack.len() > 0
        invariant
            expr_models(stack@).reverse() =~= src.subrange(src.len() - expr_models(stack@).len(), src.len() as int),
            expr_models(out@) == start + src.subrange(0, src.len() - expr_models(stack@).len()),
            expr_models(stack@).len() <= src.len(),
        decreases stack@.len(),
    {
        let ghost bs = stack@;
        let ghost k = src.len() - expr_models(stack@).len();
        let x = stack.pop().unwrap();
        proof {
            lemma_expr_models(bs);
            lemma_expr_models(stack@);
            assert(expr_models(bs).reverse()[0] == x.model());
            assert(src[k] == x.model());
            assert(expr_models(stack@) =~= expr_models(bs).drop_last());
            assert(expr_models(stack@).reverse() =~= expr_models(bs).reverse().subrange(1, expr_models(bs).len() as int));
            assert(src.subrange(0, k + 1) =~= src.subrange(0, k).push(x.model()));
        }
        push_model(out, x);
    }
    assert(src.subrange(0, src.len() as int) =~= src);
}

fn append_segs(out: &mut Vec<Vec<FilterExpressionInner>>, xs: Vec<Vec<FilterExpressionInner>>)
    ensures
        segs_model(final(out)@) == segs_model(old(out)@) + segs_model(xs@),
{
    let ghost start = segs_model(out@);
    let ghost src = segs_model(xs@);
    let mut rest = xs;
    let mut stack: Vec<Vec<FilterExpressionInner>> = Vec::new();
    while rest.len() > 0
        invariant
            segs_model(rest@) + segs_model(stack@).reverse() == src,
        decreases rest@.len(),
    {
        let ghost br = rest@;
        let ghost bs = stack@;
        let x = rest.pop().unwrap();
        stack.push(x);
        proof {
            assert(segs_model(br) =~= segs_model(rest@).push(expr_models(x@)));
            assert(segs_model(stack@) =~= segs_model(bs).push(expr_models(x@)));
            assert(segs_model(stack@).reverse() =~= seq![expr_models(x@)] + segs_model(bs).reverse());
        }
    }
    assert(segs_model(stack@).reverse() =~= src);
    while stack.len() > 0
        invariant
            segs_model(stack@).reverse() =~= src.subrange(src.len() - segs_model(stack@).len(), src.len() as int),
            segs_model(out@) == start + src.subrange(0, src.len() - segs_model(stack@).len()),
            segs_model(stack@).len() <= src.len(),
        decreases stack@.len(),
    {
        let ghost bs = stack@;
        let ghost k = src.len() - segs_model(stack@).len();
        let x = stack.pop().unwrap();
        proof {
            assert(segs_model(bs).reverse()[0] == expr_models(x@));
            assert(src[k] == expr_models(x@));
            assert(segs_model(stack@) =~= segs_model(bs).drop_last());
            assert(segs_model(stack@).reverse() =~= segs_model(bs).reverse().subrange(1, segs_model(bs).len() as int));
            assert(src.subrange(0, k + 1) =~= src.subrange(0, k).push(expr_models(x@)));
            lemma_segs_push(out@, x);
        }
        out.push(x);
    }
    assert(src.subrange(0, src.len() as int) =~= src);
}

/// Divides filters into segments.
pub struct RuleSegmenterInner;

impl RuleSegmenterInner {
    /// The segments of an expression (see [`segment_into_dnf`]).
    pub fn segment_into_dnf(expr: &FilterExpressionInner) -> (r: Vec<Vec<FilterExpressionInner>>)
        ensures
            segs_model(r@) == segment_into_dnf(expr.model()),
    {
        if Self::has_disjunction(expr) {
            Self::segment_expression(expr)
        } else if matches!(expr, FilterExpressionInner::And { .. }) {
            let mut out: Vec<Vec<FilterExpressionInner>> = Vec::new();
            let c = Self::segment_conjunctive(expr);
            proof { lemma_segs_push(out@, c); }
            out.push(c);
            assert(segs_model(out@) =~= seq![conjuncts(expr.model())]);
            out
        } else {
            let mut one: Vec<FilterExpressionInner> = Vec::new();
            push_model(&mut one, copy_expr(expr));
            proof { lemma_expr_models(Seq::<FilterExpressionInner>::empty()); }
            assert(expr_models(Seq::<FilterExpressionInner>::empty()) =~= Seq::<Expr>::empty());
            let mut out: Vec<Vec<FilterExpressionInner>> = Vec::new();
            proof { lemma_segs_push(out@, one); }
            out.push(one);
            assert(segs_model(out@) =~= seq![seq![expr.model()]]);
            out
        }
    }

    /// Whether an `Or` occurs below `And`s and `Not`s.
    #[verifier::loop_isolation(false)]
    fn has_disjunction(expr: &FilterExpressionInner) -> (r: bool)
        ensures
            r == has_disjunction(expr.model()),
        decreases expr, 0int,
    {
        match expr {
            FilterExpressionInner::Or { .. } => true,
            FilterExpressionInner::And { children } => {
                let ghost ms = expr_models(children@);
                proof { lemma_expr_models(children@); }
                let mut acc = false;
                let mut i: usize = 0;
                while i < children.len()
                    invariant
                        i <= children@.len(),
                        ms == expr_models(children@),
                        ms.len() == children@.len(),
                        forall|j: int| 0 <= j < children@.len() ==> #[trigger] ms[j] == children@[j].model(),
                        acc == any_disjunction(ms.subrange(0, i as int)),
                    decreases children@.len() - i,
                {
                    proof {
                        vstd::std_specs::vec::axiom_vec_index_decreases(*children, i as int);
                        assert(decreases_to!(*expr => expr->And_children));
                        assert(ms.subrange(0, i + 1).subrange(0, i as int) =~= ms.subrange(0, i as int));
                    }
                    let h = Self::has_disjunction(&children[i]);
                    acc = acc || h;
                    i = i + 1;
                }
                assert(ms.subrange(0, children@.len() as int) =~= ms);
                acc
            },
            FilterExpressionInner::Not { child } => Self::has_disjunction(child),
            _ => false,
        }
    }

    /// The conjuncts of nested `And`s (see [`conjuncts`]).
    fn segment_conjunctive(expr: &FilterExpressionInner) -> (r: Vec<FilterExpressionInner>)
        ensures
            expr_models(r@) == conjuncts(expr.model()),
        decreases expr, 0int,
    {
        match expr {
            FilterExpressionInner::And { children } => {
                let ghost ms = expr_models(children@);
                proof { lemma_expr_models(children@); }
                let mut out: Vec<FilterExpressionInner> = Vec::new();
                proof { lemma_expr_models(out@); }
                assert(expr_models(out@) =~= conjuncts_all(ms.subrange(0, 0)));
                let mut i: usize = 0;
                while i < children.len()
                    invariant
                        i <= children@.len(),
                        ms == expr_models(children@),
                        ms.len() == children@.len(),
                        forall|j: int| 0 <= j < children@.len() ==> #[trigger] ms[j] == children@[j].model(),
                        expr_models(out@) == conjuncts_all(ms.subrange(0, i as int)),
                        *expr == (FilterExpressionInner::And { children: *children }),
                    decreases children@.len() - i,
                {
                    proof {
                        vstd::std_specs::vec::axiom_vec_index_decreases(*children, i as int);
                        assert(decreases_to!(*expr => expr->And_children));
                        let t = ms.subrange(0, i + 1);
                        assert(t.subrange(0, i as int) =~= ms.subrange(0, i as int));
                        assert(t[i as int] == children@[i as int].model());
                    }
                    if matches!(children[i], FilterExpressionInner::And { .. }) {
                        let sub = Self::segment_conjunctive(&children[i]);
                        append_models(&mut out, sub);
                    } else {
                        push_model(&mut out, copy_expr(&children[i]));
                        assert(seq![children@[i as int].model()] =~= Seq::<Expr>::empty().push(children@[i as int].model()));
                    }
                    i = i + 1;
                }
                assert(ms.subrange(0, children@.len() as int) =~= ms);
                out
            },
            _ => {
                let mut out: Vec<FilterExpressionInner> = Vec::new();
                proof { lemma_expr_models(out@); }
                push_model(&mut out, copy_expr(expr));
                assert(expr_models(out@) =~= seq![expr.model()]);
                out
            },
        }
    }

    /// The segments of an expression (see [`segments`]).
    fn segment_expression(expr: &FilterExpressionInner) -> (r: Vec<Vec<FilterExpressionInner>>)
        ensures
            segs_model(r@) == segments(expr.model()),
        decreases expr, 1int,
    {
        if !Self::has_disjunction(expr) {
            let mut out: Vec<Vec<FilterExpressionInner>> = Vec::new();
            if matches!(expr, FilterExpressionInner::And { .. }) {
                let c = Self::segment_conjunctive(expr);
                proof { lemma_segs_push(out@, c); }
                out.push(c);
                assert(segs_model(out@) =~= seq![conjuncts(expr.model())]);
            } else {
                let mut one: Vec<FilterExpressionInner> = Vec::new();
                proof { lemma_expr_models(one@); }
                push_model(&mut one, copy_expr(expr));
                proof { lemma_segs_push(out@, one); }
                out.push(one);
                assert(segs_model(out@) =~= seq![seq![expr.model()]]);
            }
            return out;
        }
        match expr {
            FilterExpressionInner::Or { children } => Self::segment_disjunctive(children),
            FilterExpressionInner::And { children } => {
                let each = Self::segments_each(children);
                let cnf = clauses_exec(&each);
                CnfToDnfConverterInner::convert(&cnf)
            },
            _ => {
                let mut out: Vec<Vec<FilterExpressionInner>> = Vec::new();
                let mut one: Vec<FilterExpressionInner> = Vec::new();
                proof { lemma_expr_models(one@); }
                push_model(&mut one, copy_expr(expr));
                proof { lemma_segs_push(out@, one); }
                out.push(one);
                assert(segs_model(out@) =~= seq![seq![expr.model()]]);
                out
            },
        }
    }

    fn segment_disjunctive(children: &Vec<FilterExpressionInner>) -> (r: Vec<Vec<FilterExpressionInner>>)
        ensures
            segs_model(r@) == segments_disjunctive(expr_models(children@)),
        decreases children, 1int,
    {
        let ghost ms = expr_models(children@);
        proof { lemma_expr_models(children@); }
        let mut out: Vec<Vec<FilterExpressionInner>> = Vec::new();
        assert(segs_model(out@) =~= segments_disjunctive(ms.subrange(0, 0)));
        let mut i: usize = 0;
        while i < children.len()
            invariant
                i <= children@.len(),
                ms == expr_models(children@),
                ms.len() == children@.len(),
                forall|j: int| 0 <= j < children@.len() ==> #[trigger] ms[j] == children@[j].model(),
                segs_model(out@) == segments_disjunctive(ms.subrange(0, i as int)),
            decreases children@.len() - i,
        {
            proof {
                vstd::std_specs::vec::axiom_vec_index_decreases(*children, i as int);
                let t = ms.subrange(0, i + 1);
                assert(t.subrange(0, i as int) =~= ms.subrange(0, i as int));
                assert(t[i as int] == children@[i as int].model());
            }
            let segs = Self::segment_expression(&children[i]);
            append_segs(&mut out, segs);
            i = i + 1;
        }
        assert(ms.subrange(0, children@.len() as int) =~= ms);
        out
    }

    fn segments_each(children: &Vec<FilterExpressionInner>) -> (r: Vec<Vec<Vec<FilterExpressionInner>>>)
        ensures
            nested_model(r@) == segments_each(expr_models(children@)),
        decreases children, 1int,
    {
        let ghost ms = expr_models(children@);
        proof { lemma_expr_models(children@); }
        let mut out: Vec<Vec<Vec<FilterExpressionInner>>> = Vec::new();
        assert(nested_model(out@) =~= segments_each(ms.subrange(0, 0)));
        let mut i: usize = 0;
        while i < children.len()
            invariant
                i <= children@.len(),
                ms == expr_models(children@),
                ms.len() == children@.len(),
                forall|j: int| 0 <= j < children@.len() ==> #[trigger] ms[j] == children@[j].model(),
                nested_model(out@) == segments_each(ms.subrange(0, i as int)),
            decreases children@.len() - i,
        {
            proof {
                vstd::std_specs::vec::axiom_vec_index_decreases(*children, i as int);
                let t = ms.subrange(0, i + 1);
                assert(t.subrange(0, i as int) =~= ms.subrange(0, i as int));
                assert(t[i as int] == children@[i as int].model());
            }
            let segs = Self::segment_expression(&children[i]);
            let ghost before = out@;
            out.push(segs);
            assert(nested_model(out@) =~= nested_model(before).push(segs_model(segs@)));
            i = i + 1;
        }
        assert(ms.subrange(0, children@.len() as int) =~= ms);
        out
    }
}

pub open spec fn nested_model(v: Seq<Vec<Vec<FilterExpressionInner>>>) -> Seq<Seq<Seq<Expr>>> {
    Seq::new(v.len(), |i: int| segs_model(v[i]@))
}

fn and_of(seg: &Vec<FilterExpressionInner>) -> (r: FilterExpressionInner)
    ensures
        r.model() == Expr::And(expr_models(seg@)),
{
    FilterExpressionInner::And { children: copy_exprs(seg) }
}

fn clause_exec(seg: &Vec<Vec<FilterExpressionInner>>) -> (r: FilterExpressionInner)
    ensures
        r.model() == clause_of(segs_model(seg@)),
{
    let ghost sm = segs_model(seg@);
    if seg.len() >= 1 {
        proof { lemma_expr_models(seg@[0]@); }
    }
    if seg.len() == 1 && seg[0].len() == 1 {
        return copy_expr(&seg[0][0]);
    }
    if seg.len() == 1 {
        return and_of(&seg[0]);
    }
    let mut out: Vec<FilterExpressionInner> = Vec::new();
    let mut i: usize = 0;
    proof { lemma_expr_models(out@); }
    while i < seg.len()
        invariant
            i <= seg@.len(),
            sm == segs_model(seg@),
            out@.len() == i,
            forall|j: int| 0 <= j < i ==> #[trigger] out@[j].model()
                == (if sm[j].len() == 1 { sm[j][0] } else { Expr::And(sm[j]) }),
        decreases seg@.len() - i,
    {
        proof { lemma_expr_models(seg@[i as int]@); }
        let x = if seg[i].len() == 1 { copy_expr(&seg[i][0]) } else { and_of(&seg[i]) };
        out.push(x);
        i = i + 1;
    }
    proof {
        lemma_expr_models(out@);
        assert(expr_models(out@) =~= Seq::new(sm.len(), |k: int| if sm[k].len() == 1 { sm[k][0] } else { Expr::And(sm[k]) }));
    }
    FilterExpressionInner::Or { children: out }
}

fn clauses_exec(each: &Vec<Vec<Vec<FilterExpressionInner>>>) -> (r: Vec<FilterExpressionInner>)
    ensures
        expr_models(r@) == clauses(nested_model(each@)),
{
    let mut out: Vec<FilterExpressionInner> = Vec::new();
    let mut i: usize = 0;
    while i < each.len()
        invariant
            i <= each@.len(),
            out@.len() == i,
            forall|j: int| 0 <= j < i ==> #[trigger] out@[j].model() == clause_of(segs_model(each@[j]@)),
        decreases each@.len() - i,
    {
        let c = clause_exec(&each[i]);
        out.push(c);
        i = i + 1;
    }
    proof {
        lemma_expr_models(out@);
        assert(expr_models(out@) =~= clauses(nested_model(each@)));
    }
    out
}

/// Each segment extended by each alternative of `g` (see [`extend_by`]).
fn extend_by_exec(segs: &Vec<Vec<FilterExpressionInner>>, g: &Vec<FilterExpressionInner>) -> (r: Vec<Vec<FilterExpressionInner>>)
    ensures
        segs_model(r@) == extend_by(segs_model(segs@), expr_models(g@)),
{
    let ghost sm = segs_model(segs@);
    let ghost gmod = expr_models(g@);
    proof { lemma_expr_models(g@); }
    let mut out: Vec<Vec<FilterExpressionInner>> = Vec::new();
    let mut a: usize = 0;
    assert(segs_model(out@) =~= extend_by(sm.subrange(0, 0), gmod));
    while a < segs.len()
        invariant
            a <= segs@.len(),
            sm == segs_model(segs@),
            gmod == expr_models(g@),
            gmod.len() == g@.len(),
            forall|j: int| 0 <= j < g@.len() ==> #[trigger] gmod[j] == g@[j].model(),
            segs_model(out@) == extend_by(sm.subrange(0, a as int), gmod),
        decreases segs@.len() - a,
    {
        let ghost before = segs_model(out@);
        let ghost base = sm[a as int];
        assert(base == expr_models(segs@[a as int]@));
        let mut b: usize = 0;
        assert(segs_model(out@) =~= before + Seq::new(0 as nat, |i: int| base.push(gmod[i])));
        while b < g.len()
            invariant
                b <= g@.len(),
                a < segs@.len(),
                base == expr_models(segs@[a as int]@),
                gmod.len() == g@.len(),
                forall|j: int| 0 <= j < g@.len() ==> #[trigger] gmod[j] == g@[j].model(),
                segs_model(out@) == before + Seq::new(b as nat, |i: int| base.push(gmod[i])),
            decreases g@.len() - b,
        {
            let mut seg = copy_exprs(&segs[a]);
            push_model(&mut seg, copy_expr(&g[b]));
            proof { lemma_segs_push(out@, seg); }
            out.push(seg);
            assert(Seq::new((b + 1) as nat, |i: int| base.push(gmod[i]))
                =~= Seq::new(b as nat, |i: int| base.push(gmod[i])).push(base.push(gmod[b as int])));
            assert(segs_model(out@) =~= before + Seq::new((b + 1) as nat, |i: int| base.push(gmod[i])));
            b = b + 1;
        }
        proof {
            let t = sm.subrange(0, a + 1);
            assert(t.drop_last() =~= sm.subrange(0, a as int));
            assert(t.last() == base);
            assert(Seq::new(g@.len() as nat, |i: int| base.push(gmod[i])) =~= Seq::new(gmod.len(), |i: int| t.last().push(gmod[i])));
        }
        a = a + 1;
    }
    assert(sm.subrange(0, segs@.len() as int) =~= sm);
    out
}

/// Turns a conjunction of clauses into conjunctive segments.
pub struct CnfToDnfConverterInner;

impl CnfToDnfConverterInner {
    /// The segments of a conjunction of clauses (see [`convert`]).
    pub fn convert(cnf: &Vec<FilterExpressionInner>) -> (r: Vec<Vec<FilterExpressionInner>>)
        ensures
            segs_model(r@) == convert(expr_models(cnf@)),
    {
        let ghost cm = expr_models(cnf@);
        proof { lemma_expr_models(cnf@); }
        // split the clauses into the `Or`s and the others
        let mut others: Vec<FilterExpressionInner> = Vec::new();
        let mut groups: Vec<Vec<FilterExpressionInner>> = Vec::new();
        proof { lemma_expr_models(others@); }
        assert(expr_models(others@) =~= non_or(cm.subrange(0, 0)));
        assert(segs_model(groups@) =~= or_groups(cm.subrange(0, 0)));
        let mut i: usize = 0;
        while i < cnf.len()
            invariant
                i <= cnf@.len(),
                cm == expr_models(cnf@),
                cm.len() == cnf@.len(),
                forall|j: int| 0 <= j < cnf@.len() ==> #[trigger] cm[j] == cnf@[j].model(),
                expr_models(others@) == non_or(cm.subrange(0, i as int)),
                segs_model(groups@) == or_groups(cm.subrange(0, i as int)),
            decreases cnf@.len() - i,
        {
            let ghost pre = cm.subrange(0, i + 1);
            assert(pre.drop_last() =~= cm.subrange(0, i as int));
            assert(pre.last() == cnf@[i as int].model());
            match &cnf[i] {
                FilterExpressionInner::Or { children } => {
                    let g = copy_exprs(children);
                    proof { lemma_segs_push(groups@, g); }
                    groups.push(g);
                },
                other => {
                    push_model(&mut others, copy_expr(other));
                },
            }
            i = i + 1;
        }
        assert(cm.subrange(0, cnf@.len() as int) =~= cm);
        if groups.len() == 0 {
            let mut out: Vec<Vec<FilterExpressionInner>> = Vec::new();
            let all = copy_exprs(cnf);
            proof { lemma_segs_push(out@, all); }
            out.push(all);
            assert(segs_model(out@) =~= seq![cm]);
            return out;
        }
        let ghost gm = segs_model(groups@);
        let ghost om = expr_models(others@);
        let first = &groups[0];
        let ghost fm = expr_models(first@);
        proof {
            lemma_expr_models(first@);
            assert(or_groups(cm)[0] == fm);
            assert(non_or(cm) == om);
        }
        // an alternative of the first `Or` followed by the other clauses
        let mut segs: Vec<Vec<FilterExpressionInner>> = Vec::new();
        let mut a: usize = 0;
        assert(segs_model(segs@) =~= first_segments(fm.subrange(0, 0), om));
        while a < first.len()
            invariant
                a <= first@.len(),
                fm == expr_models(first@),
                fm.len() == first@.len(),
                forall|j: int| 0 <= j < first@.len() ==> #[trigger] fm[j] == first@[j].model(),
                om == expr_models(others@),
                segs_model(segs@) == first_segments(fm.subrange(0, a as int), om),
            decreases first@.len() - a,
        {
            let mut group: Vec<FilterExpressionInner> = Vec::new();
            proof { lemma_expr_models(group@); }
            push_model(&mut group, copy_expr(&first[a]));
            append_models(&mut group, copy_exprs(&others));
            assert(expr_models(group@) =~= seq![fm[a as int]] + om);
            proof { lemma_segs_push(segs@, group); }
            segs.push(group);
            assert(segs_model(segs@) =~= first_segments(fm.subrange(0, a + 1), om));
            a = a + 1;
        }
        assert(fm.subrange(0, first@.len() as int) =~= fm);
        // extended by an alternative of each later `Or`
        let mut k: usize = 1;
        while k < groups.len()
            invariant
                1 <= k <= groups@.len(),
                gm == segs_model(groups@),
                gm == or_groups(cm),
                extend_all(segs_model(segs@), gm.subrange(k as int, gm.len() as int)) == raw_segments(cm),
            decreases groups@.len() - k,
        {
            let ghost rest = gm.subrange(k as int, gm.len() as int);
            assert(rest[0] == expr_models(groups@[k as int]@));
            assert(rest.subrange(1, rest.len() as int) =~= gm.subrange(k + 1, gm.len() as int));
            segs = extend_by_exec(&segs, &groups[k]);
            k = k + 1;
        }
        assert(gm.subrange(gm.len() as int, gm.len() as int) =~= Seq::<Seq<Expr>>::empty());
        let ghost rs = raw_segments(cm);
        assert(segs_model(segs@) == rs);
        // the raw segments, each with its key
        let mut raw: Vec<(Vec<char>, Vec<FilterExpressionInner>)> = Vec::new();
        let mut c: usize = 0;
        assert(keyed_raw(raw@) =~= keyed_segments(rs.subrange(0, 0)));
        while c < segs.len()
            invariant
                c <= segs@.len(),
                rs == segs_model(segs@),
                keyed_raw(raw@) == keyed_segments(rs.subrange(0, c as int)),
            decreases segs@.len() - c,
        {
            let ghost before = keyed_raw(raw@);
            let key = segment_key_exec(&segs[c]);
            let seg = copy_exprs(&segs[c]);
            raw.push((key, seg));
            assert(rs[c as int] == expr_models(segs@[c as int]@));
            assert(keyed_raw(raw@) =~= before.push((segment_key(rs[c as int]), rs[c as int])));
            assert(keyed_segments(rs.subrange(0, c + 1)) =~= keyed_segments(rs.subrange(0, c as int)).push((segment_key(rs[c as int]), rs[c as int])));
            c = c + 1;
        }
        assert(rs.subrange(0, segs@.len() as int) =~= rs);
        let sorted = stable_sort_by_key(raw);
        let deduped = dedup_keyed(sorted);
        let ghost g = |v: Vec<FilterExpressionInner>| expr_models(v@);
        proof {
            let kr = keyed_view(raw@);
            assert(map_values_keyed(kr, g) =~= keyed_raw(raw@));
            lemma_sort_map(kr, g);
            lemma_dedup_map(sort_by_key(kr), g);
        }
        let mut out: Vec<Vec<FilterExpressionInner>> = Vec::new();
        let mut d: usize = 0;
        while d < deduped.len()
            invariant
                d <= deduped@.len(),
                out@.len() == d,
                forall|j: int| 0 <= j < d ==> #[trigger] expr_models(out@[j]@) == expr_models(deduped@[j].1@),
            decreases deduped@.len() - d,
        {
            out.push(copy_exprs(&deduped[d].1));
            d = d + 1;
        }
        proof {
            assert(map_values_keyed(keyed_view(deduped@), g) =~= keyed_raw(deduped@));
            assert(segs_model(out@) =~= unkeyed(keyed_raw(deduped@)));
        }
        out
    }
}

pub open spec fn keyed_raw(v: Seq<(Vec<char>, Vec<FilterExpressionInner>)>) -> Seq<(Seq<char>, Seq<Expr>)> {
    Seq::new(v.len(), |i: int| (v[i].0@, expr_models(v[i].1@)))
}

/// The key of a segment (see [`segment_key`]).
fn segment_key_exec(seg: &Vec<FilterExpressionInner>) -> (r: Vec<char>)
    ensures
        r@ == segment_key(expr_models(seg@)),
{
    let ghost sm = expr_models(seg@);
    proof { lemma_expr_models(seg@); }
    let ghost texts = Seq::new(sm.len(), |i: int| expr_text(sm[i]));
    let mut out: Vec<char> = Vec::new();
    let mut i: usize = 0;
    assert(texts.subrange(0, 0) =~= Seq::<Seq<char>>::empty());
    while i < seg.len()
        invariant
            i <= seg@.len(),
            sm == expr_models(seg@),
            sm.len() == seg@.len(),
            forall|j: int| 0 <= j < seg@.len() ==> #[trigger] sm[j] == seg@[j].model(),
            texts == Seq::new(sm.len(), |k: int| expr_text(sm[k])),
            out@ == join_with(texts.subrange(0, i as int), seq!['|']),
        decreases seg@.len() - i,
    {
        let t = seg[i].to_repr();
        let tc = crate::text::chars_of(t.as_str());
        if i > 0 {
            out.push('|');
        }
        crate::text::push_all(&mut out, tc.as_slice());
        proof {
            let q = texts.subrange(0, i + 1);
            assert(q.drop_last() =~= texts.subrange(0, i as int));
            assert(q.last() == tc@);
            if i == 0 {
                assert(q.len() == 1);
            }
        }
        i = i + 1;
    }
    assert(texts.subrange(0, seg@.len() as int) =~= texts);
    out
}

/// Some segment of `segs` matches, each of its expressions matching.
pub open spec fn some_segment_matches(segs: Seq<Seq<Expr>>, d: Json, facts: Seq<(Seq<char>, Option<u64>)>) -> bool {
    exists|i: int| 0 <= i < segs.len() && all_match(#[trigger] segs[i], d, facts)
}

/// Segments with equal keys are equal.
pub open spec fn keys_unambiguous(segs: Seq<Seq<Expr>>) -> bool {
    forall|i: int, j: int| 0 <= i < segs.len() && 0 <= j < segs.len()
        && segment_key(#[trigger] segs[i]) == segment_key(#[trigger] segs[j]) ==> segs[i] == segs[j]
}

/// The conjunctions the conversion of a conjunction of clauses builds that
/// share a key are equal, so that keeping one of them loses nothing.
pub open spec fn convert_exact(cnf: Seq<Expr>) -> bool {
    or_groups(cnf).len() > 0 ==> keys_unambiguous(raw_segments(cnf))
}

/// In every conjunction with a disjunction in the expression, the
/// conjunctions the distributive law builds that share a key are equal (see
/// [`convert_exact`]), so that dropping repeated keys loses nothing.
pub open spec fn distributes(e: Expr) -> bool
    decreases e, 2int,
{
    if !has_disjunction(e) {
        true
    } else {
        match e {
            Expr::Or(cs) => distributes_all(cs),
            Expr::And(cs) => distributes_all(cs) && convert_exact(clauses(segments_each(cs))),
            _ => true,
        }
    }
}

pub open spec fn distributes_all(cs: Seq<Expr>) -> bool
    decreases cs, 2int,
{
    if cs.len() == 0 {
        true
    } else {
        proof {
            assert(decreases_to!(cs => cs[cs.len() - 1]));
            assert(decreases_to!(cs => cs.subrange(0, cs.len() - 1)));
        }
        distributes_all(cs.subrange(0, cs.len() - 1)) && distributes(cs[cs.len() - 1])
    }
}

proof fn lemma_and_matches(cs: Seq<Expr>, d: Json, facts: Seq<(Seq<char>, Option<u64>)>)
    ensures
        expr_matches(Expr::And(cs), d, facts) == all_match(cs, d, facts),
        expr_matches(Expr::Or(cs), d, facts) == any_match(cs, d, facts),
{
}

proof fn lemma_all_match_one(x: Expr, d: Json, facts: Seq<(Seq<char>, Option<u64>)>)
    ensures
        all_match(seq![x], d, facts) == expr_matches(x, d, facts),
{
    lemma_all_match_each(seq![x], d, facts);
    assert(seq![x][0] == x);
}

proof fn lemma_any_match_each(s: Seq<Expr>, d: Json, facts: Seq<(Seq<char>, Option<u64>)>)
    ensures
        any_match(s, d, facts) <==> exists|i: int| 0 <= i < s.len() && #[trigger] expr_matches(s[i], d, facts),
    decreases s.len(),
{
    if s.len() > 0 {
        let t = s.subrange(0, s.len() - 1);
        let last = s[s.len() - 1];
        lemma_any_match_each(t, d, facts);
        assert(any_match(s, d, facts) == (any_match(t, d, facts) || expr_matches(last, d, facts)));
        if any_match(s, d, facts) {
            if any_match(t, d, facts) {
                let i = choose|i: int| 0 <= i < t.len() && #[trigger] expr_matches(t[i], d, facts);
                assert(s[i] == t[i]);
                assert(expr_matches(s[i], d, facts));
            } else {
                assert(expr_matches(s[s.len() - 1], d, facts));
            }
        }
        if exists|i: int| 0 <= i < s.len() && #[trigger] expr_matches(s[i], d, facts) {
            let i = choose|i: int| 0 <= i < s.len() && #[trigger] expr_matches(s[i], d, facts);
            if i < s.len() - 1 {
                assert(t[i] == s[i]);
                assert(expr_matches(t[i], d, facts));
            } else {
                assert(expr_matches(last, d, facts));
            }
        }
    }
}

proof fn lemma_all_match_concat(a: Seq<Expr>, b: Seq<Expr>, d: Json, facts: Seq<(Seq<char>, Option<u64>)>)
    ensures
        all_match(a + b, d, facts) == (all_match(a, d, facts) && all_match(b, d, facts)),
{
    let c = a + b;
    lemma_all_match_each(a, d, facts);
    lemma_all_match_each(b, d, facts);
    lemma_all_match_each(c, d, facts);
    if all_match(a, d, facts) && all_match(b, d, facts) {
        assert forall|i: int| 0 <= i < c.len() implies #[trigger] expr_matches(c[i], d, facts) by {
            if i < a.len() {
                assert(c[i] == a[i]);
            } else {
                assert(c[i] == b[i - a.len()]);
            }
        }
    }
    if all_match(c, d, facts) {
        assert forall|i: int| 0 <= i < a.len() implies #[trigger] expr_matches(a[i], d, facts) by {
            assert(c[i] == a[i]);
        }
        assert forall|i: int| 0 <= i < b.len() implies #[trigger] expr_matches(b[i], d, facts) by {
            assert(c[i + a.len()] == b[i]);
        }
    }
}

proof fn lemma_some_segment_concat(a: Seq<Seq<Expr>>, b: Seq<Seq<Expr>>, d: Json, facts: Seq<(Seq<char>, Option<u64>)>)
    ensures
        some_segment_matches(a + b, d, facts) == (some_segment_matches(a, d, facts) || some_segment_matches(b, d, facts)),
{
    let c = a + b;
    if some_segment_matches(c, d, facts) {
        let i = choose|i: int| 0 <= i < c.len() && all_match(#[trigger] c[i], d, facts);
        if i < a.len() {
            assert(c[i] == a[i]);
        } else {
            assert(c[i] == b[i - a.len()]);
        }
    }
    if some_segment_matches(a, d, facts) {
        let i = choose|i: int| 0 <= i < a.len() && all_match(#[trigger] a[i], d, facts);
        assert(c[i] == a[i]);
    }
    if some_segment_matches(b, d, facts) {
        let i = choose|i: int| 0 <= i < b.len() && all_match(#[trigger] b[i], d, facts);
        assert(c[i + a.len()] == b[i]);
    }
}

proof fn lemma_all_match_pushed(a: Seq<Expr>, y: Expr, d: Json, facts: Seq<(Seq<char>, Option<u64>)>)
    ensures
        all_match(a.push(y), d, facts) == (all_match(a, d, facts) && expr_matches(y, d, facts)),
{
    lemma_all_match_concat(a, seq![y], d, facts);
    lemma_all_match_one(y, d, facts);
    assert(a + seq![y] =~= a.push(y));
}

/// The conjuncts of a conjunction match exactly when it does.
proof fn lemma_conjuncts_all(cs: Seq<Expr>, d: Json, facts: Seq<(Seq<char>, Option<u64>)>)
    ensures
        all_match(conjuncts_all(cs), d, facts) == all_match(cs, d, facts),
    decreases cs, 0int,
{
    if cs.len() > 0 {
        let t = cs.subrange(0, cs.len() - 1);
        let x = cs[cs.len() - 1];
        assert(decreases_to!(cs => x));
        lemma_conjuncts_all(t, d, facts);
        assert(t.push(x) =~= cs);
        lemma_all_match_pushed(t, x, d, facts);
        let tail = if x is And { conjuncts(x) } else { seq![x] };
        assert(conjuncts_all(cs) == conjuncts_all(t) + tail);
        lemma_all_match_concat(conjuncts_all(t), tail, d, facts);
        match x {
            Expr::And(xs) => {
                assert(decreases_to!(x => xs));
                lemma_conjuncts_all(xs, d, facts);
                lemma_and_matches(xs, d, facts);
                assert(conjuncts(x) == conjuncts_all(xs));
            },
            _ => {
                lemma_all_match_one(x, d, facts);
            },
        }
    }
}

/// A segment list taken as one expression matches exactly when one of its
/// segments does.
proof fn lemma_clause_of(segs: Seq<Seq<Expr>>, d: Json, facts: Seq<(Seq<char>, Option<u64>)>)
    ensures
        expr_matches(clause_of(segs), d, facts) == some_segment_matches(segs, d, facts),
{
    if segs.len() == 1 {
        if segs[0].len() == 1 {
            assert(segs[0] =~= seq![segs[0][0]]);
            lemma_all_match_one(segs[0][0], d, facts);
        } else {
            lemma_and_matches(segs[0], d, facts);
        }
        if all_match(segs[0], d, facts) {
            assert(some_segment_matches(segs, d, facts));
        }
    } else {
        let alts = Seq::new(segs.len(), |i: int| if segs[i].len() == 1 { segs[i][0] } else { Expr::And(segs[i]) });
        assert(clause_of(segs) == Expr::Or(alts));
        lemma_and_matches(alts, d, facts);
        lemma_any_match_each(alts, d, facts);
        assert forall|i: int| 0 <= i < segs.len() implies #[trigger] expr_matches(alts[i], d, facts) == all_match(segs[i], d, facts) by {
            if segs[i].len() == 1 {
                assert(segs[i] =~= seq![segs[i][0]]);
                lemma_all_match_one(segs[i][0], d, facts);
            } else {
                lemma_and_matches(segs[i], d, facts);
            }
        }
        if some_segment_matches(segs, d, facts) {
            let i = choose|i: int| 0 <= i < segs.len() && all_match(#[trigger] segs[i], d, facts);
            assert(expr_matches(alts[i], d, facts));
        }
        if expr_matches(clause_of(segs), d, facts) {
            let i = choose|i: int| 0 <= i < alts.len() && #[trigger] expr_matches(alts[i], d, facts);
            assert(all_match(segs[i], d, facts));
        }
    }
}

/// The clauses match exactly when their alternatives (the `Or`s by one of
/// their members) and the other clauses do.
proof fn lemma_cnf_parts(cnf: Seq<Expr>, d: Json, facts: Seq<(Seq<char>, Option<u64>)>)
    ensures
        all_match(cnf, d, facts) == (all_match(non_or(cnf), d, facts)
            && forall|g: int| 0 <= g < or_groups(cnf).len() ==> any_match(#[trigger] or_groups(cnf)[g], d, facts)),
    decreases cnf.len(),
{
    if cnf.len() > 0 {
        let t = cnf.drop_last();
        let x = cnf.last();
        lemma_cnf_parts(t, d, facts);
        assert(t.push(x) =~= cnf);
        lemma_all_match_pushed(t, x, d, facts);
        match x {
            Expr::Or(cs) => {
                lemma_and_matches(cs, d, facts);
                let gs = or_groups(t).push(cs);
                assert(or_groups(cnf) == gs);
                assert(non_or(cnf) == non_or(t));
                if forall|g: int| 0 <= g < gs.len() ==> any_match(#[trigger] gs[g], d, facts) {
                    assert forall|g: int| 0 <= g < or_groups(t).len() implies any_match(#[trigger] or_groups(t)[g], d, facts) by {
                        assert(gs[g] == or_groups(t)[g]);
                    }
                    assert(any_match(gs[gs.len() - 1], d, facts));
                }
                if all_match(cnf, d, facts) {
                    assert forall|g: int| 0 <= g < gs.len() implies any_match(#[trigger] gs[g], d, facts) by {
                        if g < or_groups(t).len() {
                            assert(gs[g] == or_groups(t)[g]);
                        }
                    }
                }
            },
            _ => {
                assert(non_or(cnf) == non_or(t).push(x));
                assert(or_groups(cnf) == or_groups(t));
                lemma_all_match_pushed(non_or(t), x, d, facts);
            },
        }
    }
}

proof fn lemma_some_segment_one(x: Seq<Expr>, d: Json, facts: Seq<(Seq<char>, Option<u64>)>)
    ensures
        some_segment_matches(seq![x], d, facts) == all_match(x, d, facts),
{
    if all_match(x, d, facts) {
        assert(all_match(seq![x][0], d, facts));
    }
}

/// A segment extended by each alternative in turn: one of them matches
/// exactly when the segment and one alternative do.
proof fn lemma_extend_one(base: Seq<Expr>, g: Seq<Expr>, d: Json, facts: Seq<(Seq<char>, Option<u64>)>)
    ensures
        some_segment_matches(Seq::new(g.len(), |i: int| base.push(g[i])), d, facts)
            == (all_match(base, d, facts) && any_match(g, d, facts)),
{
    let b = Seq::new(g.len(), |i: int| base.push(g[i]));
    lemma_any_match_each(g, d, facts);
    assert forall|i: int| 0 <= i < g.len() implies
        #[trigger] all_match(b[i], d, facts) == (all_match(base, d, facts) && expr_matches(g[i], d, facts)) by {
        lemma_all_match_pushed(base, g[i], d, facts);
    }
    if some_segment_matches(b, d, facts) {
        let i = choose|i: int| 0 <= i < b.len() && all_match(#[trigger] b[i], d, facts);
        assert(expr_matches(g[i], d, facts));
    }
    if all_match(base, d, facts) && any_match(g, d, facts) {
        let i = choose|i: int| 0 <= i < g.len() && #[trigger] expr_matches(g[i], d, facts);
        assert(all_match(b[i], d, facts));
    }
}

proof fn lemma_extend_by(segs: Seq<Seq<Expr>>, g: Seq<Expr>, d: Json, facts: Seq<(Seq<char>, Option<u64>)>)
    ensures
        some_segment_matches(extend_by(segs, g), d, facts) == (some_segment_matches(segs, d, facts) && any_match(g, d, facts)),
    decreases segs.len(),
{
    if segs.len() > 0 {
        let t = segs.drop_last();
        lemma_extend_by(t, g, d, facts);
        lemma_extend_one(segs.last(), g, d, facts);
        lemma_some_segment_concat(extend_by(t, g), Seq::new(g.len(), |i: int| segs.last().push(g[i])), d, facts);
        lemma_some_segment_concat(t, seq![segs.last()], d, facts);
        lemma_some_segment_one(segs.last(), d, facts);
        assert(t + seq![segs.last()] =~= segs);
    }
}

/// Extending by one alternative of each group: some result matches exactly
/// when some segment does and each group has a matching alternative.
proof fn lemma_extend_all(segs: Seq<Seq<Expr>>, groups: Seq<Seq<Expr>>, d: Json, facts: Seq<(Seq<char>, Option<u64>)>)
    ensures
        some_segment_matches(extend_all(segs, groups), d, facts) == (some_segment_matches(segs, d, facts)
            && forall|g: int| 0 <= g < groups.len() ==> any_match(#[trigger] groups[g], d, facts)),
    decreases groups.len(),
{
    if groups.len() > 0 {
        let rest = groups.subrange(1, groups.len() as int);
        lemma_extend_by(segs, groups[0], d, facts);
        lemma_extend_all(extend_by(segs, groups[0]), rest, d, facts);
        if forall|g: int| 0 <= g < groups.len() ==> any_match(#[trigger] groups[g], d, facts) {
            assert forall|g: int| 0 <= g < rest.len() implies any_match(#[trigger] rest[g], d, facts) by {
                assert(rest[g] == groups[g + 1]);
            }
            assert(any_match(groups[0], d, facts));
        }
        if any_match(groups[0], d, facts) && forall|g: int| 0 <= g < rest.len() ==> any_match(#[trigger] rest[g], d, facts) {
            assert forall|g: int| 0 <= g < groups.len() implies any_match(#[trigger] groups[g], d, facts) by {
                if g > 0 {
                    assert(groups[g] == rest[g - 1]);
                }
            }
        }
    }
}

proof fn lemma_first_segments(first: Seq<Expr>, rest: Seq<Expr>, d: Json, facts: Seq<(Seq<char>, Option<u64>)>)
    ensures
        some_segment_matches(first_segments(first, rest), d, facts) == (any_match(first, d, facts) && all_match(rest, d, facts)),
{
    let f = first_segments(first, rest);
    lemma_any_match_each(first, d, facts);
    assert forall|i: int| 0 <= i < first.len() implies
        #[trigger] all_match(f[i], d, facts) == (expr_matches(first[i], d, facts) && all_match(rest, d, facts)) by {
        lemma_all_match_concat(seq![first[i]], rest, d, facts);
        lemma_all_match_one(first[i], d, facts);
    }
    if some_segment_matches(f, d, facts) {
        let i = choose|i: int| 0 <= i < f.len() && all_match(#[trigger] f[i], d, facts);
        assert(expr_matches(first[i], d, facts));
    }
    if any_match(first, d, facts) && all_match(rest, d, facts) {
        let i = choose|i: int| 0 <= i < first.len() && #[trigger] expr_matches(first[i], d, facts);
        assert(all_match(f[i], d, facts));
    }
}

/// The conjunctions built by the distributive law match exactly when the
/// conjunction of clauses does.
proof fn lemma_raw_segments(cnf: Seq<Expr>, d: Json, facts: Seq<(Seq<char>, Option<u64>)>)
    requires
        or_groups(cnf).len() > 0,
    ensures
        some_segment_matches(raw_segments(cnf), d, facts) == all_match(cnf, d, facts),
{
    let groups = or_groups(cnf);
    let later = groups.subrange(1, groups.len() as int);
    lemma_cnf_parts(cnf, d, facts);
    lemma_first_segments(groups[0], non_or(cnf), d, facts);
    lemma_extend_all(first_segments(groups[0], non_or(cnf)), later, d, facts);
    if forall|g: int| 0 <= g < groups.len() ==> any_match(#[trigger] groups[g], d, facts) {
        assert forall|g: int| 0 <= g < later.len() implies any_match(#[trigger] later[g], d, facts) by {
            assert(later[g] == groups[g + 1]);
        }
        assert(any_match(groups[0], d, facts));
    }
    if any_match(groups[0], d, facts) && forall|g: int| 0 <= g < later.len() ==> any_match(#[trigger] later[g], d, facts) {
        assert forall|g: int| 0 <= g < groups.len() implies any_match(#[trigger] groups[g], d, facts) by {
            if g > 0 {
                assert(groups[g] == later[g - 1]);
            }
        }
    }
}

/// Ordering the conjunctions and dropping those with a key already kept
/// changes nothing about matching when equal keys mean equal conjunctions.
proof fn lemma_order_dedup(raw: Seq<Seq<Expr>>, d: Json, facts: Seq<(Seq<char>, Option<u64>)>)
    requires
        keys_unambiguous(raw),
    ensures
        some_segment_matches(unkeyed(dedup_by_key(sort_by_key(keyed_segments(raw)))), d, facts)
            == some_segment_matches(raw, d, facts),
{
    broadcast use vstd::seq_lib::to_multiset_contains;
    let k = keyed_segments(raw);
    let s = sort_by_key(k);
    let dd = dedup_by_key(s);
    let out = unkeyed(dd);
    crate::rule::order::lemma_sort_perm(k);
    crate::rule::order::lemma_dedup_from(s);
    crate::rule::order::lemma_dedup_keeps_keys(s);
    if some_segment_matches(out, d, facts) {
        let i = choose|i: int| 0 <= i < out.len() && all_match(#[trigger] out[i], d, facts);
        assert(s.contains(dd[i]));
        assert(s.to_multiset().count(dd[i]) > 0);
        assert(k.contains(dd[i]));
        let m = choose|m: int| 0 <= m < k.len() && k[m] == dd[i];
        assert(all_match(raw[m], d, facts));
    }
    if some_segment_matches(raw, d, facts) {
        let j = choose|j: int| 0 <= j < raw.len() && all_match(#[trigger] raw[j], d, facts);
        assert(k.contains(k[j]));
        assert(k.to_multiset().count(k[j]) > 0);
        assert(s.contains(k[j]));
        let p = choose|p: int| 0 <= p < s.len() && s[p] == k[j];
        let i = choose|i: int| 0 <= i < dd.len() && (#[trigger] dd[i]).0 == (#[trigger] s[p]).0;
        assert(s.contains(dd[i]));
        assert(s.to_multiset().count(dd[i]) > 0);
        assert(k.contains(dd[i]));
        let m = choose|m: int| 0 <= m < k.len() && k[m] == dd[i];
        assert(segment_key(raw[m]) == segment_key(raw[j]));
        assert(raw[m] == raw[j]);
        assert(out[i] == raw[j]);
    }
}

/// The conversion of a conjunction of clauses matches exactly when the
/// conjunction does.
proof fn lemma_convert(cnf: Seq<Expr>, d: Json, facts: Seq<(Seq<char>, Option<u64>)>)
    requires
        convert_exact(cnf),
    ensures
        some_segment_matches(convert(cnf), d, facts) == all_match(cnf, d, facts),
{
    let groups = or_groups(cnf);
    lemma_cnf_parts(cnf, d, facts);
    if groups.len() == 0 {
        assert(convert(cnf) == seq![cnf]);
        if all_match(cnf, d, facts) {
            assert(all_match(convert(cnf)[0], d, facts));
        }
    } else {
        lemma_order_dedup(raw_segments(cnf), d, facts);
        lemma_raw_segments(cnf, d, facts);
    }
}

/// A filter matches exactly when one of its segments does, where every
/// conjunction in it is converted exactly.
pub proof fn lemma_segments_match(e: Expr, d: Json, facts: Seq<(Seq<char>, Option<u64>)>)
    requires
        distributes(e),
    ensures
        expr_matches(e, d, facts) == some_segment_matches(segments(e), d, facts),
    decreases e, 1int,
{
    if !has_disjunction(e) {
        match e {
            Expr::And(cs) => {
                lemma_conjuncts_all(cs, d, facts);
                lemma_and_matches(cs, d, facts);
                assert(segments(e)[0] == conjuncts_all(cs));
            },
            _ => {
                lemma_all_match_one(e, d, facts);
                assert(segments(e)[0] == seq![e]);
            },
        }
        if all_match(segments(e)[0], d, facts) {
            assert(some_segment_matches(segments(e), d, facts));
        }
    } else {
        match e {
            Expr::Or(cs) => {
                assert(decreases_to!(e => cs));
                lemma_and_matches(cs, d, facts);
                lemma_segments_disjunctive(cs, d, facts);
            },
            Expr::And(cs) => {
                assert(decreases_to!(e => cs));
                lemma_and_matches(cs, d, facts);
                lemma_clauses(cs, d, facts);
                lemma_convert(clauses(segments_each(cs)), d, facts);
            },
            _ => {
                lemma_all_match_one(e, d, facts);
                assert(segments(e)[0] == seq![e]);
                if all_match(segments(e)[0], d, facts) {
                    assert(some_segment_matches(segments(e), d, facts));
                }
            },
        }
    }
}

proof fn lemma_segments_disjunctive(cs: Seq<Expr>, d: Json, facts: Seq<(Seq<char>, Option<u64>)>)
    requires
        distributes_all(cs),
    ensures
        any_match(cs, d, facts) == some_segment_matches(segments_disjunctive(cs), d, facts),
    decreases cs, 1int,
{
    if cs.len() > 0 {
        let t = cs.subrange(0, cs.len() - 1);
        assert(decreases_to!(cs => cs[cs.len() - 1]));
        assert(decreases_to!(cs => t));
        lemma_segments_disjunctive(t, d, facts);
        lemma_segments_match(cs[cs.len() - 1], d, facts);
        lemma_some_segment_concat(segments_disjunctive(t), segments(cs[cs.len() - 1]), d, facts);
    }
}

proof fn lemma_clauses(cs: Seq<Expr>, d: Json, facts: Seq<(Seq<char>, Option<u64>)>)
    requires
        distributes_all(cs),
    ensures
        all_match(clauses(segments_each(cs)), d, facts) == all_match(cs, d, facts),
    decreases cs, 1int,
{
    if cs.len() > 0 {
        let t = cs.subrange(0, cs.len() - 1);
        let x = cs[cs.len() - 1];
        assert(decreases_to!(cs => x));
        assert(decreases_to!(cs => t));
        lemma_clauses(t, d, facts);
        lemma_segments_match(x, d, facts);
        lemma_clause_of(segments(x), d, facts);
        let c = clauses(segments_each(cs));
        assert(c =~= clauses(segments_each(t)).push(clause_of(segments(x))));
        assert(c.subrange(0, c.len() - 1) =~= clauses(segments_each(t)));
    }
}

/// Segmentation is a disjunctive normal form: a filter matches a document
/// exactly when one of its segments does, wherever the conjunctions built
/// with equal keys are equal (see [`distributes`]).
pub proof fn lemma_segment_into_dnf_matches(e: Expr, d: Json, facts: Seq<(Seq<char>, Option<u64>)>)
    requires
        distributes(e),
    ensures
        expr_matches(e, d, facts) == some_segment_matches(segment_into_dnf(e), d, facts),
{
    assert(segment_into_dnf(e) == segments(e));
    lemma_segments_match(e, d, facts);
}

} // verus!
