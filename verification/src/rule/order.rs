//! Stable ordering of keyed items, and removal of neighbours with equal keys.
use vstd::prelude::*;
use crate::filter::number::{chars_lt, seq_lt};

verus! {

/// `s` with `x` inserted after every item whose key is not greater than
/// `x`'s (the step of a stable insertion sort).
pub open spec fn insert_by_key<T>(s: Seq<(Seq<char>, T)>, x: (Seq<char>, T)) -> Seq<(Seq<char>, T)>
    decreases s.len(),
{
    if s.len() == 0 {
        seq![x]
    } else if seq_lt(x.0, s.last().0) {
        insert_by_key(s.drop_last(), x).push(s.last())
    } else {
        s.push(x)
    }
}

/// The items ordered by key, items with equal keys in their original order.
pub open spec fn sort_by_key<T>(s: Seq<(Seq<char>, T)>) -> Seq<(Seq<char>, T)>
    decreases s.len(),
{
    if s.len() == 0 {
        Seq::empty()
    } else {
        insert_by_key(sort_by_key(s.drop_last()), s.last())
    }
}

/// The items without those whose key equals the key of the item kept
/// before them.
pub open spec fn dedup_by_key<T>(s: Seq<(Seq<char>, T)>) -> Seq<(Seq<char>, T)>
    decreases s.len(),
{
    if s.len() == 0 {
        Seq::empty()
    } else {
        let d = dedup_by_key(s.drop_last());
        if d.len() > 0 && d.last().0 == s.last().0 { d } else { d.push(s.last()) }
    }
}

pub proof fn lemma_insert_at<T>(s: Seq<(Seq<char>, T)>, x: (Seq<char>, T), j: int)
    requires
        0 <= j <= s.len(),
        forall|k: int| j <= k < s.len() ==> seq_lt(x.0, #[trigger] s[k].0),
        j == 0 || !seq_lt(x.0, s[j - 1].0),
    ensures
        insert_by_key(s, x) == s.insert(j, x),
        insert_by_key(s, x).len() == s.len() + 1,
    decreases s.len(),
{
    if s.len() == 0 {
        assert(s.insert(j, x) =~= seq![x]);
    } else if seq_lt(x.0, s.last().0) {
        let t = s.drop_last();
        assert(j < s.len());
        lemma_insert_at(t, x, j);
        assert(t.insert(j, x).push(s.last()) =~= s.insert(j, x));
    } else {
        assert(j == s.len());
        assert(s.push(x) =~= s.insert(j, x));
    }
}

/// Orders keyed items by key, keeping the order of items with equal keys.
pub fn stable_sort_by_key<T>(items: Vec<(Vec<char>, T)>) -> (r: Vec<(Vec<char>, T)>)
    ensures
        keyed_view(r@) == sort_by_key(keyed_view(items@)),
{
    let ghost src = keyed_view(items@);
    let mut out: Vec<(Vec<char>, T)> = Vec::new();
    let mut rest = items;
    // take the items from the back, then sort front to back
    let mut stack: Vec<(Vec<char>, T)> = Vec::new();
    while rest.len() > 0
        invariant
            keyed_view(rest@) + keyed_view(stack@).reverse() == src,
        decreases rest@.len(),
    {
        let ghost before_rest = rest@;
        let ghost before_stack = stack@;
        let x = rest.pop().unwrap();
        stack.push(x);
        proof {
            assert(keyed_view(rest@) =~= keyed_view(before_rest).drop_last());
            assert(keyed_view(stack@) =~= keyed_view(before_stack).push(keyed_of(x)));
            assert(keyed_view(stack@).reverse() =~= seq![keyed_of(x)] + keyed_view(before_stack).reverse());
            assert(keyed_view(before_rest) =~= keyed_view(rest@).push(keyed_of(x)));
        }
    }
    assert(keyed_view(stack@).reverse() =~= src);
    while stack.len() > 0
        invariant
            keyed_view(stack@).reverse() =~= src.subrange(src.len() - keyed_view(stack@).len(), src.len() as int),
            keyed_view(out@) == sort_by_key(src.subrange(0, src.len() - keyed_view(stack@).len())),
            keyed_view(stack@).len() <= src.len(),
        decreases stack@.len(),
    {
        let ghost before_stack = stack@;
        let ghost k = src.len() - keyed_view(stack@).len();
        let x = stack.pop().unwrap();
        proof {
            assert(keyed_view(before_stack).reverse()[0] == keyed_of(x));
            assert(src[k] == keyed_of(x));
            assert(keyed_view(stack@) =~= keyed_view(before_stack).drop_last());
            assert(keyed_view(stack@).reverse() =~= keyed_view(before_stack).reverse().subrange(1, keyed_view(before_stack).len() as int));
        }
        let mut j: usize = out.len();
        while j > 0 && chars_lt(x.0.as_slice(), out[j - 1].0.as_slice())
            invariant
                j <= out@.len(),
                forall|m: int| j <= m < out@.len() ==> seq_lt(x.0@, #[trigger] keyed_view(out@)[m].0),
            decreases j,
        {
            j = j - 1;
        }
        let ghost before = keyed_view(out@);
        proof {
            lemma_insert_at(before, keyed_of(x), j as int);
            let pre = src.subrange(0, k + 1);
            assert(pre.drop_last() =~= src.subrange(0, k));
            assert(pre.last() == keyed_of(x));
        }
        out.insert(j, x);
        assert(keyed_view(out@) =~= before.insert(j as int, keyed_of(x)));
    }
    assert(src.subrange(0, src.len() as int) =~= src);
    out
}

/// Removes items whose key equals the key of the item kept before them.
pub fn dedup_keyed<T>(items: Vec<(Vec<char>, T)>) -> (r: Vec<(Vec<char>, T)>)
    ensures
        keyed_view(r@) == dedup_by_key(keyed_view(items@)),
{
    let ghost src = keyed_view(items@);
    let mut rest = items;
    let mut stack: Vec<(Vec<char>, T)> = Vec::new();
    while rest.len() > 0
        invariant
            keyed_view(rest@) + keyed_view(stack@).reverse() == src,
        decreases rest@.len(),
    {
        let ghost before_rest = rest@;
        let ghost before_stack = stack@;
        let x = rest.pop().unwrap();
        stack.push(x);
        proof {
            assert(keyed_view(rest@) =~= keyed_view(before_rest).drop_last());
            assert(keyed_view(stack@) =~= keyed_view(before_stack).push(keyed_of(x)));
            assert(keyed_view(stack@).reverse() =~= seq![keyed_of(x)] + keyed_view(before_stack).reverse());
            assert(keyed_view(before_rest) =~= keyed_view(rest@).push(keyed_of(x)));
        }
    }
    assert(keyed_view(stack@).reverse() =~= src);
    let mut out: Vec<(Vec<char>, T)> = Vec::new();
    while stack.len() > 0
        invariant
            keyed_view(stack@).reverse() =~= src.subrange(src.len() - keyed_view(stack@).len(), src.len() as int),
            keyed_view(out@) == dedup_by_key(src.subrange(0, src.len() - keyed_view(stack@).len())),
            keyed_view(stack@).len() <= src.len(),
        decreases stack@.len(),
    {
        let ghost before_stack = stack@;
        let ghost k = src.len() - keyed_view(stack@).len();
        let x = stack.pop().unwrap();
        proof {
            assert(keyed_view(before_stack).reverse()[0] == keyed_of(x));
            assert(src[k] == keyed_of(x));
            assert(keyed_view(stack@) =~= keyed_view(before_stack).drop_last());
            assert(keyed_view(stack@).reverse() =~= keyed_view(before_stack).reverse().subrange(1, keyed_view(before_stack).len() as int));
            let pre = src.subrange(0, k + 1);
            assert(pre.drop_last() =~= src.subrange(0, k));
            assert(pre.last() == keyed_of(x));
        }
        let dup = out.len() > 0 && same_key(out[out.len() - 1].0.as_slice(), x.0.as_slice());
        if !dup {
            let ghost before = keyed_view(out@);
            out.push(x);
            assert(keyed_view(out@) =~= before.push(keyed_of(x)));
        }
    }
    assert(src.subrange(0, src.len() as int) =~= src);
    out
}

fn same_key(a: &[char], b: &[char]) -> (r: bool)
    ensures
        r == (a@ == b@),
{
    if a.len() != b.len() {
        return false;
    }
    let mut i: usize = 0;
    while i < a.len()
        invariant
            i <= a@.len(),
            a@.len() == b@.len(),
            forall|j: int| 0 <= j < i ==> a@[j] == b@[j],
        decreases a@.len() - i,
    {
        if a[i] != b[i] {
            return false;
        }
        i = i + 1;
    }
    assert(a@ =~= b@);
    true
}

pub open spec fn keyed_of<T>(x: (Vec<char>, T)) -> (Seq<char>, T) {
    (x.0@, x.1)
}

pub open spec fn keyed_view<T>(s: Seq<(Vec<char>, T)>) -> Seq<(Seq<char>, T)> {
    Seq::new(s.len(), |i: int| keyed_of(s[i]))
}

/// The items with `g` applied to each value.
pub open spec fn map_values_keyed<T, U>(s: Seq<(Seq<char>, T)>, g: spec_fn(T) -> U) -> Seq<(Seq<char>, U)> {
    Seq::new(s.len(), |i: int| (s[i].0, g(s[i].1)))
}

pub proof fn lemma_insert_map<T, U>(s: Seq<(Seq<char>, T)>, x: (Seq<char>, T), g: spec_fn(T) -> U)
    ensures
        insert_by_key(map_values_keyed(s, g), (x.0, g(x.1))) == map_values_keyed(insert_by_key(s, x), g),
    decreases s.len(),
{
    let ms = map_values_keyed(s, g);
    if s.len() == 0 {
        assert(map_values_keyed(insert_by_key(s, x), g) =~= seq![(x.0, g(x.1))]);
    } else if seq_lt(x.0, s.last().0) {
        lemma_insert_map(s.drop_last(), x, g);
        assert(ms.drop_last() =~= map_values_keyed(s.drop_last(), g));
        assert(map_values_keyed(insert_by_key(s.drop_last(), x).push(s.last()), g)
            =~= map_values_keyed(insert_by_key(s.drop_last(), x), g).push((s.last().0, g(s.last().1))));
    } else {
        assert(map_values_keyed(s.push(x), g) =~= ms.push((x.0, g(x.1))));
    }
}

/// Ordering commutes with changing the values.
pub proof fn lemma_sort_map<T, U>(s: Seq<(Seq<char>, T)>, g: spec_fn(T) -> U)
    ensures
        sort_by_key(map_values_keyed(s, g)) == map_values_keyed(sort_by_key(s), g),
    decreases s.len(),
{
    if s.len() == 0 {
        assert(map_values_keyed(sort_by_key(s), g) =~= Seq::<(Seq<char>, U)>::empty());
    } else {
        let ms = map_values_keyed(s, g);
        assert(ms.drop_last() =~= map_values_keyed(s.drop_last(), g));
        lemma_sort_map(s.drop_last(), g);
        lemma_insert_map(sort_by_key(s.drop_last()), s.last(), g);
    }
}

/// Removing neighbours with equal keys commutes with changing the values.
pub proof fn lemma_dedup_map<T, U>(s: Seq<(Seq<char>, T)>, g: spec_fn(T) -> U)
    ensures
        dedup_by_key(map_values_keyed(s, g)) == map_values_keyed(dedup_by_key(s), g),
    decreases s.len(),
{
    if s.len() == 0 {
        assert(map_values_keyed(dedup_by_key(s), g) =~= Seq::<(Seq<char>, U)>::empty());
    } else {
        let ms = map_values_keyed(s, g);
        assert(ms.drop_last() =~= map_values_keyed(s.drop_last(), g));
        lemma_dedup_map(s.drop_last(), g);
        let d = dedup_by_key(s.drop_last());
        assert(map_values_keyed(d.push(s.last()), g) =~= map_values_keyed(d, g).push((s.last().0, g(s.last().1))));
    }
}

/// The values of keyed items, in order.
pub open spec fn unkeyed<T>(s: Seq<(Seq<char>, T)>) -> Seq<T> {
    Seq::new(s.len(), |i: int| s[i].1)
}

proof fn lemma_insert_unkeyed<T>(s: Seq<(Seq<char>, T)>, x: (Seq<char>, T))
    ensures
        unkeyed(insert_by_key(s, x)).to_multiset() == unkeyed(s).to_multiset().insert(x.1),
    decreases s.len(),
{
    broadcast use vstd::seq_lib::to_multiset_build;
    if s.len() == 0 {
        assert(unkeyed(insert_by_key(s, x)) =~= unkeyed(s).push(x.1));
    } else if seq_lt(x.0, s.last().0) {
        let t = insert_by_key(s.drop_last(), x);
        lemma_insert_unkeyed(s.drop_last(), x);
        assert(unkeyed(t.push(s.last())) =~= unkeyed(t).push(s.last().1));
        assert(unkeyed(s) =~= unkeyed(s.drop_last()).push(s.last().1));
        assert(unkeyed(t.push(s.last())).to_multiset() =~= unkeyed(s).to_multiset().insert(x.1));
    } else {
        assert(unkeyed(s.push(x)) =~= unkeyed(s).push(x.1));
    }
}

/// Sorting by key only reorders the values: the same values come out, each
/// as often as it went in.
pub proof fn lemma_sort_unkeyed<T>(s: Seq<(Seq<char>, T)>)
    ensures
        unkeyed(sort_by_key(s)).to_multiset() == unkeyed(s).to_multiset(),
        sort_by_key(s).len() == s.len(),
    decreases s.len(),
{
    broadcast use vstd::seq_lib::to_multiset_build;
    broadcast use vstd::seq_lib::to_multiset_len;
    if s.len() == 0 {
        assert(unkeyed(sort_by_key(s)) =~= unkeyed(s));
    } else {
        lemma_sort_unkeyed(s.drop_last());
        lemma_insert_unkeyed(sort_by_key(s.drop_last()), s.last());
        assert(unkeyed(s) =~= unkeyed(s.drop_last()).push(s.last().1));
        let u = unkeyed(sort_by_key(s));
        assert(u.len() == u.to_multiset().len());
        assert(unkeyed(s).len() == unkeyed(s).to_multiset().len());
    }
}

proof fn lemma_insert_perm<T>(s: Seq<(Seq<char>, T)>, x: (Seq<char>, T))
    ensures
        insert_by_key(s, x).to_multiset() == s.to_multiset().insert(x),
    decreases s.len(),
{
    broadcast use vstd::seq_lib::to_multiset_build;
    if s.len() == 0 {
        assert(insert_by_key(s, x) =~= s.push(x));
    } else if seq_lt(x.0, s.last().0) {
        let t = insert_by_key(s.drop_last(), x);
        lemma_insert_perm(s.drop_last(), x);
        assert(s.drop_last().push(s.last()) =~= s);
        assert(t.push(s.last()).to_multiset() =~= s.to_multiset().insert(x));
    }
}

/// Sorting by key only reorders the items.
pub proof fn lemma_sort_perm<T>(s: Seq<(Seq<char>, T)>)
    ensures
        sort_by_key(s).to_multiset() == s.to_multiset(),
    decreases s.len(),
{
    broadcast use vstd::seq_lib::to_multiset_build;
    if s.len() == 0 {
        assert(sort_by_key(s) =~= s);
    } else {
        lemma_sort_perm(s.drop_last());
        lemma_insert_perm(sort_by_key(s.drop_last()), s.last());
        assert(s.drop_last().push(s.last()) =~= s);
    }
}

/// What removing neighbours with equal keys keeps are items of the input.
pub proof fn lemma_dedup_from<T>(s: Seq<(Seq<char>, T)>)
    ensures
        forall|i: int| 0 <= i < dedup_by_key(s).len() ==> s.contains(#[trigger] dedup_by_key(s)[i]),
    decreases s.len(),
{
    if s.len() > 0 {
        let t = s.drop_last();
        lemma_dedup_from(t);
        let d = dedup_by_key(t);
        assert forall|i: int| 0 <= i < dedup_by_key(s).len() implies s.contains(#[trigger] dedup_by_key(s)[i]) by {
            if i < d.len() {
                assert(dedup_by_key(s)[i] == d[i]);
                assert(t.contains(d[i]));
                let j = choose|j: int| 0 <= j < t.len() && t[j] == d[i];
                assert(s[j] == t[j]);
            } else {
                assert(dedup_by_key(s)[i] == s[s.len() - 1]);
            }
        }
    }
}

/// Every key of the input is the key of an item kept.
pub proof fn lemma_dedup_keeps_keys<T>(s: Seq<(Seq<char>, T)>)
    ensures
        forall|j: int| 0 <= j < s.len() ==>
            exists|i: int| 0 <= i < dedup_by_key(s).len() && (#[trigger] dedup_by_key(s)[i]).0 == (#[trigger] s[j]).0,
    decreases s.len(),
{
    if s.len() > 0 {
        let t = s.drop_last();
        lemma_dedup_keeps_keys(t);
        let d = dedup_by_key(t);
        let r = dedup_by_key(s);
        assert forall|j: int| 0 <= j < s.len() implies
            exists|i: int| 0 <= i < r.len() && (#[trigger] r[i]).0 == (#[trigger] s[j]).0 by {
            if j < t.len() {
                assert(s[j] == t[j]);
                let i = choose|i: int| 0 <= i < d.len() && (#[trigger] d[i]).0 == t[j].0;
                assert(r[i] == d[i]);
            } else if d.len() > 0 && d.last().0 == s.last().0 {
                assert(r[d.len() - 1] == d.last());
            } else {
                assert(r[r.len() - 1] == s.last());
            }
        }
    }
}

/// The keys of `s` never decrease.
pub open spec fn key_sorted<T>(s: Seq<(Seq<char>, T)>) -> bool {
    forall|i: int, j: int| #![trigger s[i], s[j]] 0 <= i < j < s.len() ==> !seq_lt(s[j].0, s[i].0)
}

proof fn lemma_not_lt_trans(a: Seq<char>, b: Seq<char>, c: Seq<char>)
    requires
        !seq_lt(b, a),
        !seq_lt(c, b),
    ensures
        !seq_lt(c, a),
{
    if seq_lt(c, a) && a != b {
        crate::sorted::lemma_seq_lt_total(a, b);
        crate::sorted::lemma_seq_lt_trans(c, a, b);
    }
}

proof fn lemma_insert_sorted<T>(s: Seq<(Seq<char>, T)>, x: (Seq<char>, T))
    requires
        key_sorted(s),
    ensures
        key_sorted(insert_by_key(s, x)),
    decreases s.len(),
{
    broadcast use vstd::seq_lib::to_multiset_contains;
    if s.len() > 0 {
        let last = s.last();
        let t = s.drop_last();
        assert forall|i: int, j: int| #![trigger t[i], t[j]] 0 <= i < j < t.len() implies !seq_lt(t[j].0, t[i].0) by {
            assert(t[i] == s[i] && t[j] == s[j]);
        }
        if seq_lt(x.0, last.0) {
            lemma_insert_sorted(t, x);
            let r = insert_by_key(t, x);
            lemma_insert_perm(t, x);
            assert forall|k: int| 0 <= k < r.len() implies !seq_lt(last.0, #[trigger] r[k].0) by {
                assert(r.contains(r[k]));
                assert(r.to_multiset().count(r[k]) > 0);
                if r[k] == x {
                    crate::filter::number::lemma_seq_lt_asym(x.0, last.0);
                } else {
                    assert(t.to_multiset().count(r[k]) > 0);
                    assert(t.contains(r[k]));
                    let m = choose|m: int| 0 <= m < t.len() && t[m] == r[k];
                    assert(s[m] == t[m]);
                    assert(s[s.len() - 1] == last);
                }
            }
            let out = r.push(last);
            assert forall|i: int, j: int| #![trigger out[i], out[j]] 0 <= i < j < out.len() implies !seq_lt(out[j].0, out[i].0) by {
                if j < r.len() {
                    assert(out[i] == r[i] && out[j] == r[j]);
                } else {
                    assert(out[i] == r[i]);
                    assert(!seq_lt(last.0, r[i].0));
                }
            }
        } else {
            let out = s.push(x);
            assert forall|i: int, j: int| #![trigger out[i], out[j]] 0 <= i < j < out.len() implies !seq_lt(out[j].0, out[i].0) by {
                assert(out[i] == s[i]);
                if j < s.len() {
                    assert(out[j] == s[j]);
                } else if i < s.len() - 1 {
                    assert(!seq_lt(s[s.len() - 1].0, s[i].0));
                    lemma_not_lt_trans(s[i].0, last.0, x.0);
                }
            }
        }
    }
}

/// Sorting by key orders the items by key.
pub proof fn lemma_sort_sorted<T>(s: Seq<(Seq<char>, T)>)
    ensures
        key_sorted(sort_by_key(s)),
    decreases s.len(),
{
    if s.len() > 0 {
        lemma_sort_sorted(s.drop_last());
        lemma_insert_sorted(sort_by_key(s.drop_last()), s.last());
    }
}

} // verus!
