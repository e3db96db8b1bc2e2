//! A node of the rule tree: an expression, the nodes below it and the
//! rules whose filter ends here.
use vstd::prelude::*;
use crate::filter::expression::{expr_eq, expr_matches, facts_view, Expr, FilterExpressionInner, FloatFacts};
use crate::value::{Json, Value};

verus! {

/// Mathematical model of a node.
pub struct NodeView {
    pub expression: Option<Expr>,
    pub children: Seq<NodeView>,
    pub ids: Seq<u64>,
}

/// A node of the rule tree; the root has no expression.
pub struct NodeInner {
    pub expression: Option<FilterExpressionInner>,
    pub children: Vec<NodeInner>,
    pub matching_rule_ids: Vec<u64>,
}

pub open spec fn opt_expr_model(e: Option<FilterExpressionInner>) -> Option<Expr> {
    match e {
        Some(x) => Some(x.model()),
        None => None,
    }
}

impl NodeInner {
    pub open spec fn model(self) -> NodeView
        decreases self,
    {
        proof {
            broadcast use vstd::std_specs::vec::axiom_vec_decreases_to_view;
            assert(decreases_to!(self => self.children));
            assert(decreases_to!(self.children => self.children@));
        }
        NodeView {
            expression: opt_expr_model(self.expression),
            children: node_models(self.children@),
            ids: self.matching_rule_ids@,
        }
    }
}

pub open spec fn node_models(s: Seq<NodeInner>) -> Seq<NodeView>
    decreases s,
{
    if s.len() == 0 {
        Seq::empty()
    } else {
        proof {
            assert(decreases_to!(s => s[s.len() - 1]));
            assert(decreases_to!(s => s.subrange(0, s.len() - 1)));
        }
        node_models(s.subrange(0, s.len() - 1)).push(s[s.len() - 1].model())
    }
}

pub proof fn lemma_node_models(s: Seq<NodeInner>)
    ensures
        node_models(s).len() == s.len(),
        forall|i: int| 0 <= i < s.len() ==> #[trigger] node_models(s)[i] == s[i].model(),
    decreases s.len(),
{
    if s.len() > 0 {
        lemma_node_models(s.subrange(0, s.len() - 1));
    }
}

/// A node with no expression, or whose expression matches.
pub open spec fn node_matches(n: NodeView, d: Json, facts: Seq<(Seq<char>, Option<u64>)>) -> bool {
    match n.expression {
        Some(e) => expr_matches(e, d, facts),
        None => true,
    }
}

/// The node holds an expression equal to `e`.
pub open spec fn holds_expr(n: NodeView, e: Expr) -> bool {
    match n.expression {
        Some(x) => expr_eq(x, e),
        None => false,
    }
}

/// The first of the nodes that holds an expression equal to `e`.
pub open spec fn find_child(cs: Seq<NodeView>, e: Expr) -> Option<int>
    decreases cs.len(),
{
    if cs.len() == 0 {
        None
    } else {
        match find_child(cs.drop_last(), e) {
            Some(i) => Some(i),
            None => if holds_expr(cs.last(), e) { Some(cs.len() - 1) } else { None },
        }
    }
}

/// `find_child` is the first index that holds the expression.
pub proof fn lemma_find_child(cs: Seq<NodeView>, e: Expr)
    ensures
        match find_child(cs, e) {
            Some(i) => 0 <= i < cs.len() && holds_expr(cs[i], e)
                && forall|j: int| 0 <= j < i ==> !holds_expr(#[trigger] cs[j], e),
            None => forall|j: int| 0 <= j < cs.len() ==> !holds_expr(#[trigger] cs[j], e),
        },
    decreases cs.len(),
{
    if cs.len() > 0 {
        lemma_find_child(cs.drop_last(), e);
        match find_child(cs.drop_last(), e) {
            Some(i) => {
                assert forall|j: int| 0 <= j < i implies !holds_expr(#[trigger] cs[j], e) by {
                    assert(cs[j] == cs.drop_last()[j]);
                }
                assert(cs[i] == cs.drop_last()[i]);
            },
            None => {
                assert forall|j: int| 0 <= j < cs.len() - 1 implies !holds_expr(#[trigger] cs[j], e) by {
                    assert(cs[j] == cs.drop_last()[j]);
                }
            },
        }
    }
}

/// The number of nodes of a tree.
pub open spec fn node_size(n: NodeView) -> nat
    decreases n, 1int,
{
    1 + sizes_sum(n.children)
}

pub open spec fn sizes_sum(cs: Seq<NodeView>) -> nat
    decreases cs, 0int,
{
    if cs.len() == 0 {
        0
    } else {
        proof {
            assert(decreases_to!(cs => cs[cs.len() - 1]));
            assert(decreases_to!(cs => cs.subrange(0, cs.len() - 1)));
        }
        sizes_sum(cs.subrange(0, cs.len() - 1)) + node_size(cs[cs.len() - 1])
    }
}

impl NodeInner {
    /// A node with the expression and nothing below it.
    pub fn new(expression: Option<FilterExpressionInner>) -> (r: NodeInner)
        ensures
            r.model() == (NodeView { expression: opt_expr_model(expression), children: Seq::empty(), ids: Seq::empty() }),
    {
        let r = NodeInner { expression, children: Vec::new(), matching_rule_ids: Vec::new() };
        assert(node_models(r.children@) =~= Seq::<NodeView>::empty());
        r
    }

    /// Whether the node's expression matches the document (a node without
    /// one always does).
    pub fn does_match(&self, document: &Value, facts: &FloatFacts) -> (r: bool)
        ensures
            r == node_matches(self.model(), document.model(), facts_view(*facts)),
    {
        match &self.expression {
            Some(expr) => expr.matches(document, facts),
            None => true,
        }
    }

    /// Puts a node below this one, after the others.
    pub fn add_child(&mut self, node: NodeInner)
        ensures
            final(self).model() == (NodeView { children: old(self).model().children.push(node.model()), ..old(self).model() }),
    {
        let ghost before = self.children@;
        self.children.push(node);
        proof {
            lemma_node_models(before);
            lemma_node_models(self.children@);
            assert(node_models(self.children@) =~= node_models(before).push(node.model()));
        }
    }

    /// The first child whose expression equals `expr`.
    pub fn get_child_with_expression(&self, expr: &FilterExpressionInner) -> (r: Option<&NodeInner>)
        ensures
            r == (match find_child(self.model().children, expr.model()) {
                Some(i) => Some(&self.children@[i]),
                None => None::<&NodeInner>,
            }),
    {
        match self.child_position(expr) {
            Some(i) => Some(&self.children[i]),
            None => None,
        }
    }

    /// The first child whose expression equals `expr`, to change it.
    pub fn get_child_with_expression_mut(&mut self, expr: &FilterExpressionInner) -> (r: Option<&mut NodeInner>)
        ensures
            match find_child(old(self).model().children, expr.model()) {
                Some(i) => r is Some && *r->0 == old(self).children@[i]
                    && final(self).children@ == old(self).children@.update(i, *final(r->0))
                    && final(self).expression == old(self).expression
                    && final(self).matching_rule_ids == old(self).matching_rule_ids,
                None => r is None && *final(self) == *old(self),
            },
    {
        match self.child_position(expr) {
            Some(i) => Some(&mut self.children[i]),
            None => None,
        }
    }

    /// The index of the first child whose expression equals `expr`.
    pub(crate) fn child_position(&self, expr: &FilterExpressionInner) -> (r: Option<usize>)
        ensures
            match r {
                Some(i) => find_child(self.model().children, expr.model()) == Some(i as int)
                    && i < self.children@.len(),
                None => find_child(self.model().children, expr.model()) is None,
            },
    {
        let ghost cs = self.model().children;
        proof {
            lemma_node_models(self.children@);
            lemma_find_child(cs, expr.model());
        }
        let mut i: usize = 0;
        while i < self.children.len()
            invariant
                i <= self.children@.len(),
                cs == self.model().children,
                cs.len() == self.children@.len(),
                forall|j: int| 0 <= j < self.children@.len() ==> #[trigger] cs[j] == self.children@[j].model(),
                forall|j: int| 0 <= j < i ==> !holds_expr(#[trigger] cs[j], expr.model()),
                match find_child(cs, expr.model()) {
                    Some(k) => 0 <= k < cs.len() && holds_expr(cs[k], expr.model())
                        && forall|j: int| 0 <= j < k ==> !holds_expr(#[trigger] cs[j], expr.model()),
                    None => forall|j: int| 0 <= j < cs.len() ==> !holds_expr(#[trigger] cs[j], expr.model()),
                },
            decreases self.children@.len() - i,
        {
            let hit = match &self.children[i].expression {
                Some(e) => e.equals(expr),
                None => false,
            };
            assert(hit == holds_expr(cs[i as int], expr.model()));
            if hit {
                return Some(i);
            }
            i = i + 1;
        }
        None
    }

    /// The number of nodes from this one down.
    pub fn size(&self) -> (r: usize)
        requires
            node_size(self.model()) <= usize::MAX,
        ensures
            r == node_size(self.model()),
        decreases self, 0int,
    {
        let ghost cs = self.model().children;
        proof { lemma_node_models(self.children@); }
        let mut total: usize = 0;
        let mut i: usize = 0;
        while i < self.children.len()
            invariant
                i <= self.children@.len(),
                cs == self.model().children,
                cs.len() == self.children@.len(),
                forall|j: int| 0 <= j < self.children@.len() ==> #[trigger] cs[j] == self.children@[j].model(),
                total == sizes_sum(cs.subrange(0, i as int)),
                node_size(self.model()) <= usize::MAX,
            decreases self.children@.len() - i,
        {
            proof {
                vstd::std_specs::vec::axiom_vec_index_decreases(self.children, i as int);
                assert(decreases_to!(*self => self.children));
                assert(decreases_to!(*self => self.children[i as int]));
                lemma_sizes_prefix(cs, i + 1);
                assert(cs.subrange(0, i + 1).subrange(0, i as int) =~= cs.subrange(0, i as int));
            }
            let s = self.children[i].size();
            total = total + s;
            i = i + 1;
        }
        assert(cs.subrange(0, cs.len() as int) =~= cs);
        total + 1
    }
}

/// A prefix of the children counts no more nodes than all of them.
pub proof fn lemma_sizes_prefix(cs: Seq<NodeView>, k: int)
    requires
        0 <= k <= cs.len(),
    ensures
        sizes_sum(cs.subrange(0, k)) <= sizes_sum(cs),
    decreases cs.len(),
{
    if k < cs.len() {
        assert(cs.subrange(0, cs.len() - 1).subrange(0, k) =~= cs.subrange(0, k));
        lemma_sizes_prefix(cs.subrange(0, cs.len() - 1), k);
    } else {
        assert(cs.subrange(0, k) =~= cs);
    }
}

} // verus!
