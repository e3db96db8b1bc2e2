//! The rule tree: each rule's segment is a path of expressions from the
//! root, rules share the nodes of equal leading expressions, and an event
//! is matched against all rules in one walk.
use vstd::prelude::*;
use crate::filter::expression::{all_match, expr_models, facts_view, lemma_expr_models, Expr, FilterExpressionInner, FloatFacts};
use crate::rule::node::{find_child, lemma_node_models, node_matches, node_models, node_size, NodeInner, NodeView};
use crate::value::{Json, Value};
use crate::filter::expression::expr_matches;
use crate::rule::demorgan::resolve;
use crate::rule::parser::{lemma_parsed_matches, parsed};
use crate::rule::segmenter::{distributes, some_segment_matches};

verus! {

/// The node with `id` among its rules (added at the end if missing).
pub open spec fn with_id(n: NodeView, id: u64) -> NodeView {
    if n.ids.contains(id) { n } else { NodeView { ids: n.ids.push(id), ..n } }
}

/// A node with the expression and nothing else.
pub open spec fn fresh(e: Expr) -> NodeView {
    NodeView { expression: Some(e), children: Seq::empty(), ids: Seq::empty() }
}

/// The root of an empty tree.
pub open spec fn empty_root() -> NodeView {
    NodeView { expression: None, children: Seq::empty(), ids: Seq::empty() }
}

/// The tree below `n` with the rule `id` added along `path`: each step goes
/// to the first child holding an equal expression, or to a new last child.
pub open spec fn insert_path(n: NodeView, path: Seq<Expr>, id: u64) -> NodeView
    decreases path.len(),
{
    if path.len() == 0 {
        with_id(n, id)
    } else {
        let rest = path.subrange(1, path.len() as int);
        match find_child(n.children, path[0]) {
            Some(i) => NodeView { children: n.children.update(i, insert_path(n.children[i], rest, id)), ..n },
            None => NodeView { children: n.children.push(insert_path(fresh(path[0]), rest, id)), ..n },
        }
    }
}

/// The rules found below `n` for the document: for each matching child in
/// order, its rules, then those found below it.
pub open spec fn collect(n: NodeView, d: Json, facts: Seq<(Seq<char>, Option<u64>)>) -> Seq<u64>
    decreases n, 1int,
{
    collect_all(n.children, d, facts)
}

pub open spec fn collect_all(cs: Seq<NodeView>, d: Json, facts: Seq<(Seq<char>, Option<u64>)>) -> Seq<u64>
    decreases cs, 0int,
{
    if cs.len() == 0 {
        Seq::empty()
    } else {
        proof {
            assert(decreases_to!(cs => cs[cs.len() - 1]));
            assert(decreases_to!(cs => cs.subrange(0, cs.len() - 1)));
        }
        collect_all(cs.subrange(0, cs.len() - 1), d, facts) + (if node_matches(cs[cs.len() - 1], d, facts) {
            cs[cs.len() - 1].ids + collect(cs[cs.len() - 1], d, facts)
        } else {
            Seq::empty()
        })
    }
}

/// The items without repeats, each where it first occurs.
pub open spec fn dedup_first(s: Seq<u64>) -> Seq<u64>
    decreases s.len(),
{
    if s.len() == 0 {
        Seq::empty()
    } else {
        let d = dedup_first(s.drop_last());
        if d.contains(s.last()) { d } else { d.push(s.last()) }
    }
}

/// Matches events against many rules at once.
pub struct TreeInner {
    root: NodeInner,
    rule_count: usize,
}

impl TreeInner {
    /// The model of the tree's root.
    pub closed spec fn root_view(self) -> NodeView {
        self.root.model()
    }

    /// How many rules were added.
    pub closed spec fn count(self) -> nat {
        self.rule_count as nat
    }

    /// An empty tree.
    pub fn new() -> (r: TreeInner)
        ensures
            r.root_view() == empty_root(),
            r.count() == 0,
    {
        TreeInner { root: NodeInner::new(None), rule_count: 0 }
    }

    /// Adds a rule with one segment: its expressions become a path from the
    /// root, sharing the nodes that hold equal expressions.
    pub fn add_rule(&mut self, segments: &[FilterExpressionInner], rule_id: u64)
        requires
            old(self).count() < usize::MAX,
        ensures
            final(self).root_view() == insert_path(old(self).root_view(), expr_models(segments@), rule_id),
            final(self).count() == old(self).count() + 1,
    {
        Self::add_rule_to_node(&mut self.root, segments, rule_id);
        self.rule_count = self.rule_count + 1;
    }

    fn add_rule_to_node(node: &mut NodeInner, segments: &[FilterExpressionInner], rule_id: u64)
        ensures
            final(node).model() == insert_path(old(node).model(), expr_models(segments@), rule_id),
        decreases segments@.len(),
    {
        let ghost path = expr_models(segments@);
        proof { lemma_expr_models(segments@); }
        if segments.len() == 0 {
            if !contains_id(&node.matching_rule_ids, rule_id) {
                node.matching_rule_ids.push(rule_id);
            }
            return;
        }
        let rest = vstd::slice::slice_subrange(segments, 1, segments.len());
        proof {
            lemma_expr_models(rest@);
            assert(expr_models(rest@) =~= path.subrange(1, path.len() as int));
            lemma_node_models(node.children@);
        }
        let ghost before = node.children@;
        match node.child_position(&segments[0]) {
            Some(idx) => {
                Self::add_rule_to_node(&mut node.children[idx], rest, rule_id);
                proof {
                    lemma_node_models(node.children@);
                    assert(node_models(node.children@) =~= node_models(before).update(
                        idx as int,
                        insert_path(node_models(before)[idx as int], path.subrange(1, path.len() as int), rule_id),
                    ));
                }
            },
            None => {
                let child = NodeInner::new(Some(crate::filter::lucene::copy_expr(&segments[0])));
                node.children.push(child);
                let idx = node.children.len() - 1;
                Self::add_rule_to_node(&mut node.children[idx], rest, rule_id);
                proof {
                    lemma_node_models(node.children@);
                    assert(node_models(node.children@) =~= node_models(before).push(
                        insert_path(fresh(path[0]), path.subrange(1, path.len() as int), rule_id),
                    ));
                }
            },
        }
    }

    /// The rules that match the event, each once, in the order the walk
    /// first finds them.
    pub fn get_matching_rules(&self, event: &Value, facts: &FloatFacts) -> (r: Vec<u64>)
        ensures
            r@ == dedup_first(collect(self.root_view(), event.model(), facts_view(*facts))),
    {
        let mut found: Vec<u64> = Vec::new();
        Self::collect_matches(&self.root, event, facts, &mut found);
        assert(found@ =~= collect(self.root_view(), event.model(), facts_view(*facts)));
        let mut out: Vec<u64> = Vec::new();
        let mut i: usize = 0;
        while i < found.len()
            invariant
                i <= found@.len(),
                out@ == dedup_first(found@.subrange(0, i as int)),
            decreases found@.len() - i,
        {
            let ghost pre = found@.subrange(0, i + 1);
            assert(pre.drop_last() =~= found@.subrange(0, i as int));
            if !contains_id(&out, found[i]) {
                out.push(found[i]);
            }
            i = i + 1;
        }
        assert(found@.subrange(0, found@.len() as int) =~= found@);
        out
    }

    fn collect_matches(node: &NodeInner, event: &Value, facts: &FloatFacts, matches: &mut Vec<u64>)
        ensures
            final(matches)@ == old(matches)@ + collect(node.model(), event.model(), facts_view(*facts)),
        decreases node, 0int,
    {
        let ghost cs = node.model().children;
        let ghost start = matches@;
        proof { lemma_node_models(node.children@); }
        let mut i: usize = 0;
        while i < node.children.len()
            invariant
                i <= node.children@.len(),
                cs == node.model().children,
                cs.len() == node.children@.len(),
                forall|j: int| 0 <= j < node.children@.len() ==> #[trigger] cs[j] == node.children@[j].model(),
                matches@ == start + collect_all(cs.subrange(0, i as int), event.model(), facts_view(*facts)),
            decreases node.children@.len() - i,
        {
            proof {
                vstd::std_specs::vec::axiom_vec_index_decreases(node.children, i as int);
                assert(decreases_to!(*node => node.children));
                assert(decreases_to!(*node => node.children[i as int]));
                assert(cs.subrange(0, i + 1).subrange(0, i as int) =~= cs.subrange(0, i as int));
            }
            let child = &node.children[i];
            let ghost mid = matches@;
            if child.does_match(event, facts) {
                let mut k: usize = 0;
                while k < child.matching_rule_ids.len()
                    invariant
                        k <= child.matching_rule_ids@.len(),
                        matches@ == mid + child.matching_rule_ids@.subrange(0, k as int),
                    decreases child.matching_rule_ids@.len() - k,
                {
                    matches.push(child.matching_rule_ids[k]);
                    assert(mid + child.matching_rule_ids@.subrange(0, k + 1) =~= (mid + child.matching_rule_ids@.subrange(0, k as int)).push(child.matching_rule_ids@[k as int]));
                    k = k + 1;
                }
                assert(child.matching_rule_ids@.subrange(0, child.matching_rule_ids@.len() as int) =~= child.matching_rule_ids@);
                Self::collect_matches(child, event, facts, matches);
                assert(matches@ =~= start + collect_all(cs.subrange(0, i + 1), event.model(), facts_view(*facts)));
            } else {
                assert(matches@ =~= start + collect_all(cs.subrange(0, i + 1), event.model(), facts_view(*facts)));
            }
            i = i + 1;
        }
        assert(cs.subrange(0, cs.len() as int) =~= cs);
    }

    /// How many rules were added.
    pub fn rule_count(&self) -> (r: usize)
        ensures
            r == self.count(),
    {
        self.rule_count
    }

    /// The number of nodes, the root included.
    pub fn size(&self) -> (r: usize)
        requires
            node_size(self.root_view()) <= usize::MAX,
        ensures
            r == node_size(self.root_view()),
    {
        self.root.size()
    }

    /// The root node.
    pub fn root(&self) -> (r: &NodeInner)
        ensures
            r.model() == self.root_view(),
    {
        &self.root
    }
}

impl Default for TreeInner {
    fn default() -> (r: TreeInner)
        ensures
            r.root_view() == empty_root(),
            r.count() == 0,
    {
        TreeInner::new()
    }
}

fn contains_id(v: &Vec<u64>, id: u64) -> (r: bool)
    ensures
        r == v@.contains(id),
{
    let mut i: usize = 0;
    while i < v.len()
        invariant
            i <= v@.len(),
            forall|j: int| 0 <= j < i ==> v@[j] != id,
        decreases v@.len() - i,
    {
        if v[i] == id {
            assert(v@[i as int] == id);
            return true;
        }
        i = i + 1;
    }
    false
}

/// Every item of `a` occurs in `b`.
pub open spec fn covers(a: Seq<u64>, b: Seq<u64>) -> bool {
    forall|x: u64| a.contains(x) ==> #[trigger] b.contains(x)
}

proof fn lemma_dedup_first_contains(s: Seq<u64>, x: u64)
    ensures
        dedup_first(s).contains(x) == s.contains(x),
    decreases s.len(),
{
    broadcast use vstd::seq_lib::group_seq_properties;
    if s.len() > 0 {
        lemma_dedup_first_contains(s.drop_last(), x);
        assert(s =~= s.drop_last().push(s.last()));
    }
}

proof fn lemma_all_match_first(path: Seq<Expr>, d: Json, facts: Seq<(Seq<char>, Option<u64>)>)
    requires
        path.len() > 0,
    ensures
        all_match(path, d, facts) == (crate::filter::expression::expr_matches(path[0], d, facts)
            && all_match(path.subrange(1, path.len() as int), d, facts)),
{
    let rest = path.subrange(1, path.len() as int);
    crate::rule::parser::lemma_all_match_each(path, d, facts);
    crate::rule::parser::lemma_all_match_each(rest, d, facts);
    if crate::filter::expression::expr_matches(path[0], d, facts) && all_match(rest, d, facts) {
        assert forall|i: int| 0 <= i < path.len() implies #[trigger] crate::filter::expression::expr_matches(path[i], d, facts) by {
            if i > 0 {
                assert(rest[i - 1] == path[i]);
            }
        }
    }
    if all_match(path, d, facts) {
        assert forall|i: int| 0 <= i < rest.len() implies #[trigger] crate::filter::expression::expr_matches(rest[i], d, facts) by {
            assert(rest[i] == path[i + 1]);
        }
    }
}

proof fn lemma_chain(e: Expr, rest: Seq<Expr>, id: u64, d: Json, facts: Seq<(Seq<char>, Option<u64>)>)
    ensures
        insert_path(fresh(e), rest, id).expression == Some(e),
        insert_path(fresh(e), rest, id).ids == (if rest.len() == 0 { seq![id] } else { Seq::<u64>::empty() }),
        collect(insert_path(fresh(e), rest, id), d, facts)
            == (if rest.len() > 0 && all_match(rest, d, facts) { seq![id] } else { Seq::<u64>::empty() }),
    decreases rest.len(),
{
    let m = insert_path(fresh(e), rest, id);
    if rest.len() == 0 {
        assert(!Seq::<u64>::empty().contains(id));
        assert(Seq::<u64>::empty().push(id) =~= seq![id]);
    } else {
        let tail = rest.subrange(1, rest.len() as int);
        let c = insert_path(fresh(rest[0]), tail, id);
        assert(find_child(Seq::<NodeView>::empty(), rest[0]) is None);
        assert(m.children =~= seq![c]);
        lemma_chain(rest[0], tail, id, d, facts);
        lemma_all_match_first(rest, d, facts);
        assert(m.children.subrange(0, 0) =~= Seq::<NodeView>::empty());
        if node_matches(c, d, facts) {
            if tail.len() == 0 {
                assert(c.ids + collect(c, d, facts) =~= seq![id]);
            } else {
                assert(c.ids + collect(c, d, facts) =~= collect(c, d, facts));
            }
        }
        let tailpart = if node_matches(c, d, facts) { c.ids + collect(c, d, facts) } else { Seq::<u64>::empty() };
        assert(collect_all(m.children, d, facts) == collect_all(m.children.subrange(0, 0), d, facts) + tailpart);
        assert(collect_all(Seq::<NodeView>::empty(), d, facts) =~= Seq::<u64>::empty());
        assert(node_matches(c, d, facts) == crate::filter::expression::expr_matches(rest[0], d, facts));
        assert(collect(m, d, facts) =~= (if rest.len() > 0 && all_match(rest, d, facts) { seq![id] } else { Seq::<u64>::empty() }));
    }
}

/// A rule added to an empty tree is found for exactly the events that its
/// whole segment matches (a rule with an empty segment sits at the root and
/// is never found).
pub proof fn lemma_single_rule_matches(path: Seq<Expr>, id: u64, d: Json, facts: Seq<(Seq<char>, Option<u64>)>)
    ensures
        dedup_first(collect(insert_path(empty_root(), path, id), d, facts))
            == (if path.len() > 0 && all_match(path, d, facts) { seq![id] } else { Seq::<u64>::empty() }),
{
    let t = insert_path(empty_root(), path, id);
    if path.len() == 0 {
        assert(collect(t, d, facts) =~= Seq::<u64>::empty());
    } else {
        let rest = path.subrange(1, path.len() as int);
        let c = insert_path(fresh(path[0]), rest, id);
        assert(find_child(Seq::<NodeView>::empty(), path[0]) is None);
        assert(t.children =~= seq![c]);
        lemma_chain(path[0], rest, id, d, facts);
        lemma_all_match_first(path, d, facts);
        assert(t.children.subrange(0, 0) =~= Seq::<NodeView>::empty());
        if node_matches(c, d, facts) {
            if rest.len() == 0 {
                assert(c.ids + collect(c, d, facts) =~= seq![id]);
            } else {
                assert(c.ids + collect(c, d, facts) =~= collect(c, d, facts));
            }
        }
        let r = collect(t, d, facts);
        let tailpart = if node_matches(c, d, facts) { c.ids + collect(c, d, facts) } else { Seq::<u64>::empty() };
        assert(collect_all(t.children, d, facts) == collect_all(t.children.subrange(0, 0), d, facts) + tailpart);
        assert(collect_all(Seq::<NodeView>::empty(), d, facts) =~= Seq::<u64>::empty());
        assert(node_matches(c, d, facts) == expr_matches(path[0], d, facts));
        assert(r =~= (if all_match(path, d, facts) { seq![id] } else { Seq::<u64>::empty() }));
        assert(seq![id].drop_last() =~= Seq::<u64>::empty());
        assert(dedup_first(Seq::<u64>::empty()) =~= Seq::<u64>::empty());
        assert(Seq::<u64>::empty().push(id) =~= seq![id]);
    }
}

proof fn lemma_collect_all_push(cs: Seq<NodeView>, x: NodeView, d: Json, facts: Seq<(Seq<char>, Option<u64>)>)
    ensures
        covers(collect_all(cs, d, facts), collect_all(cs.push(x), d, facts)),
{
    broadcast use vstd::seq_lib::group_seq_properties;
    assert(cs.push(x).subrange(0, cs.len() as int) =~= cs);
}

proof fn lemma_collect_all_update(
    cs: Seq<NodeView>,
    i: int,
    c: NodeView,
    d: Json,
    facts: Seq<(Seq<char>, Option<u64>)>,
)
    requires
        0 <= i < cs.len(),
        c.expression == cs[i].expression,
        covers(cs[i].ids, c.ids),
        covers(collect(cs[i], d, facts), collect(c, d, facts)),
    ensures
        covers(collect_all(cs, d, facts), collect_all(cs.update(i, c), d, facts)),
    decreases cs.len(),
{
    broadcast use vstd::seq_lib::group_seq_properties;
    let u = cs.update(i, c);
    let n = cs.len();
    if i == n - 1 {
        assert(u.subrange(0, n - 1) =~= cs.subrange(0, n - 1));
    } else {
        lemma_collect_all_update(cs.subrange(0, n - 1), i, c, d, facts);
        assert(u.subrange(0, n - 1) =~= cs.subrange(0, n - 1).update(i, c));
        assert(u[n - 1] == cs[n - 1]);
    }
}

/// Adding a rule never takes a match away: every rule found for an event
/// before is found after.
pub proof fn lemma_add_rule_keeps_matches(
    n: NodeView,
    path: Seq<Expr>,
    id: u64,
    d: Json,
    facts: Seq<(Seq<char>, Option<u64>)>,
)
    ensures
        covers(dedup_first(collect(n, d, facts)), dedup_first(collect(insert_path(n, path, id), d, facts))),
{
    lemma_insert_keeps(n, path, id, d, facts);
    assert forall|x: u64| dedup_first(collect(n, d, facts)).contains(x) implies
        #[trigger] dedup_first(collect(insert_path(n, path, id), d, facts)).contains(x) by {
        lemma_dedup_first_contains(collect(n, d, facts), x);
        lemma_dedup_first_contains(collect(insert_path(n, path, id), d, facts), x);
    }
}

proof fn lemma_insert_keeps(n: NodeView, path: Seq<Expr>, id: u64, d: Json, facts: Seq<(Seq<char>, Option<u64>)>)
    ensures
        insert_path(n, path, id).expression == n.expression,
        covers(n.ids, insert_path(n, path, id).ids),
        covers(collect(n, d, facts), collect(insert_path(n, path, id), d, facts)),
    decreases path.len(),
{
    broadcast use vstd::seq_lib::group_seq_properties;
    if path.len() > 0 {
        let rest = path.subrange(1, path.len() as int);
        crate::rule::node::lemma_find_child(n.children, path[0]);
        match find_child(n.children, path[0]) {
            Some(i) => {
                lemma_insert_keeps(n.children[i], rest, id, d, facts);
                lemma_collect_all_update(n.children, i, insert_path(n.children[i], rest, id), d, facts);
            },
            None => {
                lemma_collect_all_push(n.children, insert_path(fresh(path[0]), rest, id), d, facts);
            },
        }
    }
}

/// The node matches the document and holds `x` or finds it below.
pub open spec fn found_in(c: NodeView, x: u64, d: Json, facts: Seq<(Seq<char>, Option<u64>)>) -> bool {
    node_matches(c, d, facts) && (c.ids.contains(x) || collect(c, d, facts).contains(x))
}

proof fn lemma_collect_all_contains(cs: Seq<NodeView>, x: u64, d: Json, facts: Seq<(Seq<char>, Option<u64>)>)
    ensures
        collect_all(cs, d, facts).contains(x) == exists|j: int| 0 <= j < cs.len() && #[trigger] found_in(cs[j], x, d, facts),
    decreases cs.len(),
{
    broadcast use vstd::seq_lib::group_seq_properties;
    if cs.len() > 0 {
        let t = cs.subrange(0, cs.len() - 1);
        let c = cs[cs.len() - 1];
        lemma_collect_all_contains(t, x, d, facts);
        let part = if node_matches(c, d, facts) { c.ids + collect(c, d, facts) } else { Seq::<u64>::empty() };
        assert(collect_all(cs, d, facts) == collect_all(t, d, facts) + part);
        assert(part.contains(x) == found_in(c, x, d, facts));
        if collect_all(t, d, facts).contains(x) {
            let j = choose|j: int| 0 <= j < t.len() && #[trigger] found_in(t[j], x, d, facts);
            assert(cs[j] == t[j]);
            assert(found_in(cs[j], x, d, facts));
        }
        if found_in(c, x, d, facts) {
            assert(found_in(cs[cs.len() - 1], x, d, facts));
        }
        if exists|j: int| 0 <= j < cs.len() && #[trigger] found_in(cs[j], x, d, facts) {
            let j = choose|j: int| 0 <= j < cs.len() && #[trigger] found_in(cs[j], x, d, facts);
            if j < cs.len() - 1 {
                assert(t[j] == cs[j]);
                assert(found_in(t[j], x, d, facts));
            }
        }
    }
}

/// A child that holds an expression equal to `e` matches a document
/// exactly when `e` does.
proof fn lemma_shared_child_matches(cs: Seq<NodeView>, e: Expr, d: Json, facts: Seq<(Seq<char>, Option<u64>)>)
    ensures
        match find_child(cs, e) {
            Some(i) => node_matches(cs[i], d, facts) == expr_matches(e, d, facts),
            None => true,
        },
{
    crate::rule::node::lemma_find_child(cs, e);
    if let Some(i) = find_child(cs, e) {
        if let Some(x) = cs[i].expression {
            crate::filter::expression::lemma_expr_eq_matches(x, e, d, facts);
        }
    }
}

/// Adding a rule along a path makes the tree find it for exactly the
/// documents that the whole path matches, and changes nothing else that
/// is found.
pub proof fn lemma_insert_finds(n: NodeView, path: Seq<Expr>, id: u64, x: u64, d: Json, facts: Seq<(Seq<char>, Option<u64>)>)
    ensures
        collect(insert_path(n, path, id), d, facts).contains(x)
            == (collect(n, d, facts).contains(x) || (x == id && path.len() > 0 && all_match(path, d, facts))),
        insert_path(n, path, id).ids.contains(x) == (n.ids.contains(x) || (x == id && path.len() == 0)),
        insert_path(n, path, id).expression == n.expression,
    decreases path.len(),
{
    broadcast use vstd::seq_lib::group_seq_properties;
    let m = insert_path(n, path, id);
    if path.len() > 0 {
        let rest = path.subrange(1, path.len() as int);
        let cs = n.children;
        lemma_all_match_first(path, d, facts);
        crate::rule::node::lemma_find_child(cs, path[0]);
        lemma_shared_child_matches(cs, path[0], d, facts);
        lemma_collect_all_contains(cs, x, d, facts);
        let (c, k) = match find_child(cs, path[0]) {
            Some(i) => (cs[i], i),
            None => (fresh(path[0]), cs.len() as int),
        };
        let c2 = insert_path(c, rest, id);
        if find_child(cs, path[0]) is None {
            assert(collect_all(Seq::<NodeView>::empty(), d, facts) =~= Seq::<u64>::empty());
            assert(!collect(c, d, facts).contains(x));
        }
        lemma_insert_finds(c, rest, id, x, d, facts);
        let cs2 = m.children;
        assert(cs2.len() == if k < cs.len() { cs.len() } else { cs.len() + 1 });
        assert(cs2[k] == c2);
        assert(forall|j: int| 0 <= j < cs.len() && j != k ==> cs2[j] == cs[j]);
        assert(node_matches(c2, d, facts) == node_matches(c, d, facts));
        assert(node_matches(c, d, facts) == expr_matches(path[0], d, facts));
        lemma_collect_all_contains(cs2, x, d, facts);
        // the changed (or new) child is found where it was, or through the path
        assert(found_in(c2, x, d, facts) == ((k < cs.len() && found_in(c, x, d, facts))
            || (x == id && all_match(path, d, facts)))) by {
            if k == cs.len() {
                assert(!c.ids.contains(x));
            }
            if rest.len() == 0 {
                assert(all_match(rest, d, facts)) by {
                    assert(rest =~= Seq::<Expr>::empty());
                }
            }
        }
        if collect(m, d, facts).contains(x) {
            let j = choose|j: int| 0 <= j < cs2.len() && #[trigger] found_in(cs2[j], x, d, facts);
            if j != k {
                assert(found_in(cs[j], x, d, facts));
            }
        }
        if collect(n, d, facts).contains(x) {
            let j = choose|j: int| 0 <= j < cs.len() && #[trigger] found_in(cs[j], x, d, facts);
            if j != k {
                assert(found_in(cs2[j], x, d, facts));
            } else {
                assert(found_in(cs2[k], x, d, facts));
            }
        }
        if x == id && all_match(path, d, facts) {
            assert(found_in(cs2[k], x, d, facts));
        }
    }
}

/// The tree built by adding each path with its rule, in order, to an empty
/// tree.
#[verifier::opaque]
pub open spec fn built(rules: Seq<(Seq<Expr>, u64)>) -> NodeView
    decreases rules.len(),
{
    if rules.len() == 0 {
        empty_root()
    } else {
        insert_path(built(rules.drop_last()), rules.last().0, rules.last().1)
    }
}

/// The path is not empty, matches as a whole, and carries the rule `x`.
pub open spec fn path_finds(rule: (Seq<Expr>, u64), x: u64, d: Json, facts: Seq<(Seq<char>, Option<u64>)>) -> bool {
    rule.1 == x && rule.0.len() > 0 && all_match(rule.0, d, facts)
}

proof fn lemma_built_step(rules: Seq<(Seq<Expr>, u64)>, x: u64, d: Json, facts: Seq<(Seq<char>, Option<u64>)>)
    requires
        rules.len() > 0,
    ensures
        collect(built(rules), d, facts).contains(x)
            == (collect(built(rules.drop_last()), d, facts).contains(x) || path_finds(rules.last(), x, d, facts)),
{
    reveal(built);
    lemma_insert_finds(built(rules.drop_last()), rules.last().0, rules.last().1, x, d, facts);
}

/// Law: a tree built from rules and their paths finds a rule for a document
/// exactly when one of its non-empty paths matches it as a whole.
pub proof fn lemma_built_finds(rules: Seq<(Seq<Expr>, u64)>, x: u64, d: Json, facts: Seq<(Seq<char>, Option<u64>)>)
    ensures
        dedup_first(collect(built(rules), d, facts)).contains(x)
            == exists|k: int| 0 <= k < rules.len() && #[trigger] path_finds(rules[k], x, d, facts),
    decreases rules.len(),
{
    lemma_dedup_first_contains(collect(built(rules), d, facts), x);
    if rules.len() == 0 {
        reveal(built);
        assert(collect(built(rules), d, facts) =~= Seq::<u64>::empty());
    } else {
        let t = rules.drop_last();
        lemma_built_finds(t, x, d, facts);
        lemma_dedup_first_contains(collect(built(t), d, facts), x);
        lemma_built_step(rules, x, d, facts);
        if exists|k: int| 0 <= k < t.len() && #[trigger] path_finds(t[k], x, d, facts) {
            let k = choose|k: int| 0 <= k < t.len() && #[trigger] path_finds(t[k], x, d, facts);
            assert(t[k] == rules[k]);
            assert(path_finds(rules[k], x, d, facts));
        }
        if path_finds(rules.last(), x, d, facts) {
            assert(path_finds(rules[rules.len() - 1], x, d, facts));
        }
        if exists|k: int| 0 <= k < rules.len() && #[trigger] path_finds(rules[k], x, d, facts) {
            let k = choose|k: int| 0 <= k < rules.len() && #[trigger] path_finds(rules[k], x, d, facts);
            if k < t.len() {
                assert(t[k] == rules[k]);
                assert(path_finds(t[k], x, d, facts));
            }
        }
    }
}

/// The paths of a rule: each of its segments, with the rule's id.
pub open spec fn rule_paths(segs: Seq<Seq<Expr>>, id: u64) -> Seq<(Seq<Expr>, u64)> {
    Seq::new(segs.len(), |i: int| (segs[i], id))
}

/// Law: a rule whose parsed segments (without tags) are added to an empty
/// tree is found for exactly the documents that its filter matches, where
/// the conjunctions its segmentation builds with equal keys are equal (see
/// [`distributes`]) and no segment is empty.
pub proof fn lemma_rule_found_iff_filter_matches(
    e: Expr,
    priorities: Seq<(Seq<char>, Seq<char>)>,
    id: u64,
    d: Json,
    facts: Seq<(Seq<char>, Option<u64>)>,
)
    requires
        distributes(resolve(e)),
        forall|i: int| 0 <= i < parsed(e, priorities, Seq::empty()).len() ==> #[trigger] parsed(e, priorities, Seq::empty())[i].len() > 0,
    ensures
        dedup_first(collect(built(rule_paths(parsed(e, priorities, Seq::empty()), id)), d, facts)).contains(id)
            == expr_matches(e, d, facts),
{
    let p = parsed(e, priorities, Seq::empty());
    let rules = rule_paths(p, id);
    lemma_parsed_matches(e, priorities, Seq::empty(), d, facts);
    lemma_built_finds(rules, id, d, facts);
    if some_segment_matches(p, d, facts) {
        let i = choose|i: int| 0 <= i < p.len() && all_match(#[trigger] p[i], d, facts);
        assert(path_finds(rules[i], id, d, facts));
    }
    if exists|k: int| 0 <= k < rules.len() && #[trigger] path_finds(rules[k], id, d, facts) {
        let k = choose|k: int| 0 <= k < rules.len() && #[trigger] path_finds(rules[k], id, d, facts);
        assert(all_match(p[k], d, facts));
    }
}

/// Law: the rules found hold no repeats (so a run over them applies each
/// rule at most once, see `lemma_batch_keeps_applied_unique`).
pub proof fn lemma_dedup_first_distinct(s: Seq<u64>)
    ensures
        dedup_first(s).no_duplicates(),
    decreases s.len(),
{
    if s.len() > 0 {
        let d = dedup_first(s.drop_last());
        lemma_dedup_first_distinct(s.drop_last());
        if !d.contains(s.last()) {
            let p = d.push(s.last());
            assert forall|i: int, j: int| 0 <= i < p.len() && 0 <= j < p.len() && i != j implies p[i] != p[j] by {
                if i < d.len() && j < d.len() {
                    assert(p[i] == d[i] && p[j] == d[j]);
                } else if i < d.len() {
                    assert(p[i] == d[i]);
                    assert(d.contains(d[i]));
                } else {
                    assert(p[j] == d[j]);
                    assert(d.contains(d[j]));
                }
            }
        }
    }
}

} // verus!
