//! Sets of strings kept as strictly ascending lists, in `str`'s order.
use vstd::prelude::*;
use crate::field::views;
use crate::filter::number::{chars_lt, lemma_seq_lt_asym, seq_lt};
use crate::text::chars_of;

verus! {

/// Each string comes strictly before the next.
pub open spec fn strictly_sorted(s: Seq<Seq<char>>) -> bool {
    forall|i: int, j: int| 0 <= i < j < s.len() ==> seq_lt(#[trigger] s[i], #[trigger] s[j])
}

/// `str`'s order is transitive.
pub proof fn lemma_seq_lt_trans(a: Seq<char>, b: Seq<char>, c: Seq<char>)
    requires
        seq_lt(a, b),
        seq_lt(b, c),
    ensures
        seq_lt(a, c),
    decreases a.len(),
{
    if a.len() > 0 && b.len() > 0 && c.len() > 0 && a[0] == b[0] && b[0] == c[0] {
        lemma_seq_lt_trans(
            a.subrange(1, a.len() as int),
            b.subrange(1, b.len() as int),
            c.subrange(1, c.len() as int),
        );
    }
}

/// `str`'s order is total: of two different strings one comes first.
pub proof fn lemma_seq_lt_total(a: Seq<char>, b: Seq<char>)
    requires
        a != b,
    ensures
        seq_lt(a, b) || seq_lt(b, a),
    decreases a.len(),
{
    if a.len() > 0 && b.len() > 0 && a[0] == b[0] {
        let x = a.subrange(1, a.len() as int);
        let y = b.subrange(1, b.len() as int);
        if x == y {
            assert(a =~= seq![a[0]] + x);
            assert(b =~= seq![b[0]] + y);
        }
        lemma_seq_lt_total(x, y);
    } else if a.len() > 0 && b.len() > 0 {
        let x = a[0];
        let y = b[0];
        assert(x < y || y < x);
    } else if a.len() == 0 && b.len() == 0 {
        assert(a =~= b);
    }
}

/// A set of strings has one strictly ascending list: two such lists with
/// the same items are equal.
pub proof fn lemma_sorted_unique(a: Seq<Seq<char>>, b: Seq<Seq<char>>)
    requires
        strictly_sorted(a),
        strictly_sorted(b),
        a.to_set() == b.to_set(),
    ensures
        a == b,
    decreases a.len() + b.len(),
{
    if a.len() == 0 {
        if b.len() > 0 {
            assert(b.to_set().contains(b[0]));
        }
        assert(a =~= b);
    } else if b.len() == 0 {
        assert(a.to_set().contains(a[0]));
    } else {
        assert(a.to_set().contains(a[0]));
        assert(b.to_set().contains(b[0]));
        let j = choose|j: int| 0 <= j < b.len() && b[j] == a[0];
        let i = choose|i: int| 0 <= i < a.len() && a[i] == b[0];
        if j > 0 {
            assert(seq_lt(b[0], b[j]));
            if i > 0 {
                assert(seq_lt(a[0], a[i]));
                lemma_seq_lt_asym(a[0], a[i]);
            } else {
                lemma_seq_lt_asym(a[0], a[0]);
            }
        }
        assert(a[0] == b[0]);
        let ta = a.subrange(1, a.len() as int);
        let tb = b.subrange(1, b.len() as int);
        assert forall|x: Seq<char>| ta.to_set().contains(x) implies tb.to_set().contains(x) by {
            let k = choose|k: int| 0 <= k < ta.len() && ta[k] == x;
            assert(a[k + 1] == x);
            assert(a.to_set().contains(x));
            let m = choose|m: int| 0 <= m < b.len() && b[m] == x;
            assert(seq_lt(a[0], a[k + 1]));
            if m == 0 {
                lemma_seq_lt_asym(a[0], a[0]);
            }
            assert(tb[m - 1] == x);
        }
        assert forall|x: Seq<char>| tb.to_set().contains(x) implies ta.to_set().contains(x) by {
            let k = choose|k: int| 0 <= k < tb.len() && tb[k] == x;
            assert(b[k + 1] == x);
            assert(b.to_set().contains(x));
            let m = choose|m: int| 0 <= m < a.len() && a[m] == x;
            assert(seq_lt(b[0], b[k + 1]));
            if m == 0 {
                lemma_seq_lt_asym(b[0], b[0]);
            }
            assert(ta[m - 1] == x);
        }
        assert(ta.to_set() =~= tb.to_set());
        lemma_sorted_unique(ta, tb);
        assert(a =~= seq![a[0]] + ta);
        assert(b =~= seq![b[0]] + tb);
    }
}

/// `l` with `x` put in its place, where it is not there yet.
pub open spec fn sorted_insert(l: Seq<Seq<char>>, x: Seq<char>) -> Seq<Seq<char>>
    decreases l.len(),
{
    if l.len() == 0 {
        seq![x]
    } else if seq_lt(l.last(), x) {
        l.push(x)
    } else if l.last() == x {
        l
    } else {
        sorted_insert(l.drop_last(), x).push(l.last())
    }
}

proof fn lemma_push_to_set(l: Seq<Seq<char>>, x: Seq<char>)
    ensures
        l.push(x).to_set() == l.to_set().insert(x),
{
    assert(l.push(x) =~= l + seq![x]);
    Seq::<Seq<char>>::lemma_to_set_insert_commutes(l, x);
}

proof fn lemma_sorted_insert(l: Seq<Seq<char>>, x: Seq<char>)
    requires
        strictly_sorted(l),
    ensures
        strictly_sorted(sorted_insert(l, x)),
        sorted_insert(l, x).to_set() == l.to_set().insert(x),
    decreases l.len(),
{
    if l.len() == 0 {
        assert(seq![x] =~= Seq::<Seq<char>>::empty().push(x));
        lemma_push_to_set(Seq::<Seq<char>>::empty(), x);
        assert(Seq::<Seq<char>>::empty().to_set() =~= Set::<Seq<char>>::empty());
    } else if seq_lt(l.last(), x) {
        let r = l.push(x);
        lemma_push_to_set(l, x);
        assert forall|i: int, j: int| 0 <= i < j < r.len() implies seq_lt(#[trigger] r[i], #[trigger] r[j]) by {
            if j == l.len() && i < l.len() - 1 {
                assert(seq_lt(l[i], l[l.len() - 1]));
                lemma_seq_lt_trans(l[i], l.last(), x);
            }
        }
    } else if l.last() == x {
        assert(l.to_set().contains(l[l.len() - 1]));
        assert(l.to_set().insert(x) =~= l.to_set());
    } else {
        lemma_seq_lt_total(l.last(), x);
        let t = l.drop_last();
        assert forall|i: int, j: int| 0 <= i < j < t.len() implies seq_lt(#[trigger] t[i], #[trigger] t[j]) by {
            assert(t[i] == l[i] && t[j] == l[j]);
        }
        lemma_sorted_insert(t, x);
        let r0 = sorted_insert(t, x);
        let r = r0.push(l.last());
        lemma_push_to_set(r0, l.last());
        lemma_push_to_set(t, l.last());
        assert(t.push(l.last()) =~= l);
        assert forall|i: int, j: int| 0 <= i < j < r.len() implies seq_lt(#[trigger] r[i], #[trigger] r[j]) by {
            if j == r0.len() {
                assert(r[i] == r0[i]);
                assert(r0.to_set().contains(r0[i]));
                if r0[i] != x {
                    assert(t.to_set().contains(r0[i]));
                    let k = choose|k: int| 0 <= k < t.len() && t[k] == r0[i];
                    assert(l[k] == t[k]);
                    assert(seq_lt(l[k], l[l.len() - 1]));
                }
            } else {
                assert(r[i] == r0[i] && r[j] == r0[j]);
            }
        }
        assert(r.to_set() =~= l.to_set().insert(x));
    }
}

/// Law: every finite set of strings has a strictly ascending list (and by
/// [`lemma_sorted_unique`] only one).
pub proof fn lemma_sorted_list_exists(s: Set<Seq<char>>)
    requires
        s.finite(),
    ensures
        exists|l: Seq<Seq<char>>| strictly_sorted(l) && l.to_set() == s,
    decreases s.len(),
{
    if s.len() == 0 {
        s.lemma_len0_is_empty();
        let l = Seq::<Seq<char>>::empty();
        assert(l.to_set() =~= s);
        assert(strictly_sorted(l) && l.to_set() == s);
    } else {
        let x = s.choose();
        vstd::set::axiom_set_choose_len(s);
        vstd::set::axiom_set_remove_len(s, x);
        vstd::set::axiom_set_remove_finite(s, x);
        lemma_sorted_list_exists(s.remove(x));
        let l0 = choose|l: Seq<Seq<char>>| strictly_sorted(l) && l.to_set() == s.remove(x);
        lemma_sorted_insert(l0, x);
        assert(s.remove(x).insert(x) =~= s);
        let l = sorted_insert(l0, x);
        assert(strictly_sorted(l) && l.to_set() == s);
    }
}

/// Adds a string to a strictly ascending list, keeping it so.
pub fn insert_sorted(v: &mut Vec<String>, x: String)
    requires
        strictly_sorted(views(old(v)@)),
    ensures
        strictly_sorted(views(final(v)@)),
        views(final(v)@).to_set() == views(old(v)@).to_set().insert(x@),
{
    let ghost s = views(v@);
    let xc = chars_of(x.as_str());
    let mut i: usize = 0;
    while i < v.len()
        invariant
            i <= v@.len(),
            s == views(v@),
            strictly_sorted(s),
            xc@ == x@,
            forall|k: int| 0 <= k < i ==> seq_lt(#[trigger] s[k], x@),
        ensures
            i <= v@.len(),
            s == views(v@),
            forall|k: int| 0 <= k < i ==> seq_lt(#[trigger] s[k], x@),
            i < v@.len() ==> !seq_lt(s[i as int], x@),
        decreases v@.len() - i,
    {
        let yc = chars_of(v[i].as_str());
        assert(yc@ == s[i as int]);
        if !chars_lt(yc.as_slice(), xc.as_slice()) {
            break;
        }
        i = i + 1;
    }
    if i < v.len() {
        let yc = chars_of(v[i].as_str());
        if !chars_lt(xc.as_slice(), yc.as_slice()) {
            // neither is before the other: they are equal
            proof {
                if s[i as int] != x@ {
                    lemma_seq_lt_total(s[i as int], x@);
                }
                assert(s[i as int] == x@);
                assert(s.to_set().contains(s[i as int]));
                assert(s.to_set().insert(x@) =~= s.to_set());
            }
            return;
        }
    }
    proof {
        assert forall|k: int| i <= k < s.len() implies seq_lt(x@, #[trigger] s[k]) by {
            if k > i {
                assert(seq_lt(s[i as int], s[k]));
                lemma_seq_lt_trans(x@, s[i as int], s[k]);
            }
        }
    }
    v.insert(i, x);
    proof {
        let t = views(v@);
        assert(t =~= s.insert(i as int, x@));
        assert forall|a: int, b: int| 0 <= a < b < t.len() implies seq_lt(#[trigger] t[a], #[trigger] t[b]) by {
            if b < i {
                assert(t[a] == s[a] && t[b] == s[b]);
            } else if b == i {
                assert(t[a] == s[a]);
            } else if a < i {
                assert(t[a] == s[a] && t[b] == s[b - 1]);
            } else if a == i {
                assert(t[b] == s[b - 1]);
            } else {
                assert(t[a] == s[a - 1]);
                assert(t[b] == s[b - 1]);
            }
        }
        assert forall|y: Seq<char>| t.to_set().contains(y) <==> s.to_set().insert(x@).contains(y) by {
            if t.to_set().contains(y) {
                let k = choose|k: int| 0 <= k < t.len() && t[k] == y;
                if k < i {
                    assert(s[k] == y);
                } else if k > i {
                    assert(s[k - 1] == y);
                }
            }
            if s.to_set().contains(y) {
                let k = choose|k: int| 0 <= k < s.len() && s[k] == y;
                if k < i {
                    assert(t[k] == y);
                } else {
                    assert(t[k + 1] == y);
                }
            }
            if y == x@ {
                assert(t[i as int] == y);
            }
        }
        assert(t.to_set() =~= s.to_set().insert(x@));
    }
}

/// Adds each string to a strictly ascending list.
pub fn insert_all_sorted(v: &mut Vec<String>, xs: &Vec<String>)
    requires
        strictly_sorted(views(old(v)@)),
    ensures
        strictly_sorted(views(final(v)@)),
        views(final(v)@).to_set() == views(old(v)@).to_set().union(views(xs@).to_set()),
{
    let ghost start = views(v@).to_set();
    let mut i: usize = 0;
    while i < xs.len()
        invariant
            i <= xs@.len(),
            strictly_sorted(views(v@)),
            views(v@).to_set() == start.union(views(xs@.subrange(0, i as int)).to_set()),
        decreases xs@.len() - i,
    {
        let ghost before = views(v@).to_set();
        insert_sorted(v, xs[i].clone());
        proof {
            let p = views(xs@.subrange(0, i as int));
            let q = views(xs@.subrange(0, i + 1));
            assert(q =~= p.push(xs@[i as int]@));
            assert(q.to_set() =~= p.to_set().insert(xs@[i as int]@)) by {
                assert forall|y: Seq<char>| q.to_set().contains(y) <==> p.to_set().insert(xs@[i as int]@).contains(y) by {
                    if q.to_set().contains(y) {
                        let k = choose|k: int| 0 <= k < q.len() && q[k] == y;
                        if k < p.len() {
                            assert(p[k] == y);
                        }
                    }
                    if p.to_set().contains(y) {
                        let k = choose|k: int| 0 <= k < p.len() && p[k] == y;
                        assert(q[k] == y);
                    }
                    if y == xs@[i as int]@ {
                        assert(q[i as int] == y);
                    }
                }
            }
            assert(views(v@).to_set() =~= start.union(q.to_set()));
        }
        i = i + 1;
    }
    assert(xs@.subrange(0, xs@.len() as int) =~= xs@);
}

} // verus!
