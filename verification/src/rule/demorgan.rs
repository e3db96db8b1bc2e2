//! De Morgan resolution: negations are pushed down until they stand
//! directly above field tests.
use vstd::prelude::*;
use crate::filter::expression::{
    all_match, any_match, expr_match, expr_matches, expr_models, lemma_expr_models, Expr,
    FilterExpressionInner,
};
use crate::filter::lucene::copy_expr;

verus! {

/// The expression with every negation pushed down to the field tests.
pub open spec fn resolve(e: Expr) -> Expr
    decreases e, 0int,
{
    match e {
        Expr::Not(c) => resolve_not(*c),
        Expr::And(cs) => Expr::And(resolve_all(cs)),
        Expr::Or(cs) => Expr::Or(resolve_all(cs)),
        _ => e,
    }
}

/// The resolution of `NOT e`.
pub open spec fn resolve_not(e: Expr) -> Expr
    decreases e, 1int,
{
    match e {
        Expr::Not(c) => resolve(*c),
        Expr::And(cs) => Expr::Or(resolve_not_all(cs)),
        Expr::Or(cs) => Expr::And(resolve_not_all(cs)),
        _ => Expr::Not(Box::new(resolve(e))),
    }
}

pub open spec fn resolve_all(cs: Seq<Expr>) -> Seq<Expr>
    decreases cs, 0int,
{
    if cs.len() == 0 {
        Seq::empty()
    } else {
        proof {
            assert(decreases_to!(cs => cs[cs.len() - 1]));
            assert(decreases_to!(cs => cs.subrange(0, cs.len() - 1)));
        }
        resolve_all(cs.subrange(0, cs.len() - 1)).push(resolve(cs[cs.len() - 1]))
    }
}

pub open spec fn resolve_not_all(cs: Seq<Expr>) -> Seq<Expr>
    decreases cs, 0int,
{
    if cs.len() == 0 {
        Seq::empty()
    } else {
        proof {
            assert(decreases_to!(cs => cs[cs.len() - 1]));
            assert(decreases_to!(cs => cs.subrange(0, cs.len() - 1)));
        }
        resolve_not_all(cs.subrange(0, cs.len() - 1)).push(resolve_not(cs[cs.len() - 1]))
    }
}

/// Negation stands only directly above field tests (negation normal form).
pub open spec fn is_nnf(e: Expr) -> bool
    decreases e, 0int,
{
    match e {
        Expr::Not(c) => !(*c is Not || *c is And || *c is Or),
        Expr::And(cs) => all_nnf(cs),
        Expr::Or(cs) => all_nnf(cs),
        _ => true,
    }
}

pub open spec fn all_nnf(cs: Seq<Expr>) -> bool
    decreases cs, 0int,
{
    if cs.len() == 0 {
        true
    } else {
        proof {
            assert(decreases_to!(cs => cs[cs.len() - 1]));
            assert(decreases_to!(cs => cs.subrange(0, cs.len() - 1)));
        }
        all_nnf(cs.subrange(0, cs.len() - 1)) && is_nnf(cs[cs.len() - 1])
    }
}

/// Law: resolving negations does not change which documents an expression
/// matches, and the result is in negation normal form.
pub proof fn lemma_resolve_matches(e: Expr, d: crate::value::Json, facts: Seq<(Seq<char>, Option<u64>)>)
    ensures
        expr_matches(resolve(e), d, facts) == expr_matches(e, d, facts),
        is_nnf(resolve(e)),
    decreases e, 0int,
{
    match e {
        Expr::Not(c) => {
            lemma_resolve_not_matches(*c, d, facts);
        },
        Expr::And(cs) => {
            lemma_resolve_all(cs, d, facts);
        },
        Expr::Or(cs) => {
            lemma_resolve_all(cs, d, facts);
        },
        _ => {},
    }
}

/// Law: the resolution of `NOT e` matches exactly where `e` does not, and
/// is in negation normal form.
pub proof fn lemma_resolve_not_matches(e: Expr, d: crate::value::Json, facts: Seq<(Seq<char>, Option<u64>)>)
    ensures
        expr_matches(resolve_not(e), d, facts) == !expr_matches(e, d, facts),
        is_nnf(resolve_not(e)),
    decreases e, 1int,
{
    match e {
        Expr::Not(c) => {
            lemma_resolve_matches(*c, d, facts);
        },
        Expr::And(cs) => {
            lemma_resolve_not_all(cs, d, facts);
        },
        Expr::Or(cs) => {
            lemma_resolve_not_all(cs, d, facts);
        },
        _ => {
            lemma_resolve_matches(e, d, facts);
        },
    }
}

pub proof fn lemma_resolve_all(cs: Seq<Expr>, d: crate::value::Json, facts: Seq<(Seq<char>, Option<u64>)>)
    ensures
        all_match(resolve_all(cs), d, facts) == all_match(cs, d, facts),
        any_match(resolve_all(cs), d, facts) == any_match(cs, d, facts),
        all_nnf(resolve_all(cs)),
        resolve_all(cs).len() == cs.len(),
    decreases cs, 0int,
{
    if cs.len() > 0 {
        let init = cs.subrange(0, cs.len() - 1);
        lemma_resolve_all(init, d, facts);
        lemma_resolve_matches(cs[cs.len() - 1], d, facts);
        let r = resolve_all(cs);
        assert(r.subrange(0, r.len() - 1) =~= resolve_all(init));
    }
}

pub proof fn lemma_resolve_not_all(cs: Seq<Expr>, d: crate::value::Json, facts: Seq<(Seq<char>, Option<u64>)>)
    ensures
        any_match(resolve_not_all(cs), d, facts) == !all_match(cs, d, facts),
        all_match(resolve_not_all(cs), d, facts) == !any_match(cs, d, facts),
        all_nnf(resolve_not_all(cs)),
        resolve_not_all(cs).len() == cs.len(),
    decreases cs, 0int,
{
    if cs.len() > 0 {
        let init = cs.subrange(0, cs.len() - 1);
        lemma_resolve_not_all(init, d, facts);
        lemma_resolve_not_matches(cs[cs.len() - 1], d, facts);
        let r = resolve_not_all(cs);
        assert(r.subrange(0, r.len() - 1) =~= resolve_not_all(init));
    }
}

/// Resolves negations with De Morgan's laws.
pub struct DeMorganResolverInner;

impl DeMorganResolverInner {
    /// The expression with negations pushed down to the field tests.
    pub fn resolve(expr: &FilterExpressionInner) -> (r: FilterExpressionInner)
        ensures
            r.model() == resolve(expr.model()),
        decreases expr, 0int,
    {
        match expr {
            FilterExpressionInner::Not { child } => Self::resolve_not(child),
            FilterExpressionInner::And { children } => {
                FilterExpressionInner::And { children: Self::resolve_each(children, false) }
            },
            FilterExpressionInner::Or { children } => {
                FilterExpressionInner::Or { children: Self::resolve_each(children, false) }
            },
            _ => copy_expr(expr),
        }
    }

    fn resolve_not(inner: &FilterExpressionInner) -> (r: FilterExpressionInner)
        ensures
            r.model() == resolve_not(inner.model()),
        decreases inner, 1int,
    {
        match inner {
            FilterExpressionInner::Not { child } => Self::resolve(child),
            FilterExpressionInner::And { children } => {
                FilterExpressionInner::Or { children: Self::resolve_each(children, true) }
            },
            FilterExpressionInner::Or { children } => {
                FilterExpressionInner::And { children: Self::resolve_each(children, true) }
            },
            _ => FilterExpressionInner::Not { child: Box::new(Self::resolve(inner)) },
        }
    }

    /// Each child resolved, or (with `negate`) each child's negation.
    fn resolve_each(children: &Vec<FilterExpressionInner>, negate: bool) -> (r: Vec<FilterExpressionInner>)
        ensures
            expr_models(r@) == (if negate { resolve_not_all(expr_models(children@)) } else { resolve_all(expr_models(children@)) }),
        decreases children, 0int,
    {
        let ghost ms = expr_models(children@);
        proof { lemma_expr_models(children@); }
        let mut out: Vec<FilterExpressionInner> = Vec::new();
        let mut i: usize = 0;
        proof { lemma_expr_models(out@); }
        while i < children.len()
            invariant
                i <= children@.len(),
                ms == expr_models(children@),
                ms.len() == children@.len(),
                forall|j: int| 0 <= j < children@.len() ==> #[trigger] ms[j] == children@[j].model(),
                expr_models(out@) == (if negate { resolve_not_all(ms.subrange(0, i as int)) } else { resolve_all(ms.subrange(0, i as int)) }),
            decreases children@.len() - i,
        {
            proof {
                vstd::std_specs::vec::axiom_vec_index_decreases(*children, i as int);
                let t = ms.subrange(0, i + 1);
                assert(t.subrange(0, i as int) =~= ms.subrange(0, i as int));
                assert(t[i as int] == children@[i as int].model());
            }
            let x = if negate { Self::resolve_not(&children[i]) } else { Self::resolve(&children[i]) };
            let ghost before = out@;
            out.push(x);
            proof {
                lemma_expr_models(before);
                lemma_expr_models(out@);
                assert(expr_models(out@) =~= expr_models(before).push(x.model()));
            }
            i = i + 1;
        }
        assert(ms.subrange(0, children@.len() as int) =~= ms);
        out
    }
}

proof fn lemma_resolve_nnf(e: Expr)
    requires
        is_nnf(e),
    ensures
        resolve(e) == e,
    decreases e, 0int,
{
    match e {
        Expr::Not(c) => {
            assert(resolve_not(*c) == Expr::Not(Box::new(resolve(*c))));
        },
        Expr::And(cs) => {
            lemma_resolve_all_nnf(cs);
        },
        Expr::Or(cs) => {
            lemma_resolve_all_nnf(cs);
        },
        _ => {},
    }
}

proof fn lemma_resolve_all_nnf(cs: Seq<Expr>)
    requires
        all_nnf(cs),
    ensures
        resolve_all(cs) == cs,
    decreases cs, 0int,
{
    if cs.len() > 0 {
        let t = cs.subrange(0, cs.len() - 1);
        lemma_resolve_all_nnf(t);
        lemma_resolve_nnf(cs[cs.len() - 1]);
        assert(t.push(cs[cs.len() - 1]) =~= cs);
    }
}

/// Law: resolving negations is idempotent: a resolved expression resolves
/// to itself.
pub proof fn lemma_resolve_idempotent(e: Expr)
    ensures
        resolve(resolve(e)) == resolve(e),
{
    lemma_resolve_matches(e, crate::value::Json::Null, Seq::empty());
    lemma_resolve_nnf(resolve(e));
}

} // verus!
