//! Sorting, deduplication and lookup on vectors of `SortKey` values.

use vstd::prelude::*;
use vstd::relations::*;
use crate::order::{SortKey, key_order, lemma_key_le_facts};

verus! {

broadcast use vstd::seq_lib::group_to_multiset_ensures, vstd::multiset::group_multiset_axioms;

/// The views of the elements of a sequence.
pub open spec fn views<T: View>(s: Seq<T>) -> Seq<T::V> {
    s.map_values(|x: T| x@)
}

/// `s` is in ascending order.
pub open spec fn sorted_keys<T: SortKey>(s: Seq<T::V>) -> bool {
    forall|i: int, j: int| 0 <= i < j < s.len() ==> T::key_le(#[trigger] s[i], #[trigger] s[j])
}

/// `s` is in strictly ascending order: sorted, with no element twice.
pub open spec fn strictly_sorted_keys<T: SortKey>(s: Seq<T::V>) -> bool {
    forall|i: int, j: int|
        0 <= i < j < s.len() ==> T::key_le(#[trigger] s[i], #[trigger] s[j]) && s[i] != s[j]
}

/// Two sequences that are sorted by the same total order and hold the same
/// multiset of elements are equal.
pub proof fn lemma_sorted_unique<A>(a: Seq<A>, b: Seq<A>, leq: spec_fn(A, A) -> bool)
    requires
        total_ordering(leq),
        sorted_by(a, leq),
        sorted_by(b, leq),
        a.to_multiset() == b.to_multiset(),
    ensures
        a == b,
    decreases a.len(),
{
    if a.len() == 0 {
        assert(b.to_multiset().len() == 0);
        assert(b =~= a);
    } else {
        assert(a.to_multiset().len() == a.len());
        assert(b.to_multiset().len() == b.len());
        assert(a.to_multiset().count(a[0]) > 0);
        assert(b.contains(a[0]));
        let j = choose|j: int| 0 <= j < b.len() && b[j] == a[0];
        assert(b.to_multiset().count(b[0]) > 0);
        assert(a.contains(b[0]));
        let i = choose|i: int| 0 <= i < a.len() && a[i] == b[0];
        if j > 0 {
            assert(leq(b[0], b[j]));
        }
        if i > 0 {
            assert(leq(a[0], a[i]));
        }
        assert(leq(b[0], a[0]));
        assert(leq(a[0], b[0]));
        assert(a[0] == b[0]);
        assert(a.remove(0) =~= a.drop_first());
        assert(b.remove(0) =~= b.drop_first());
        assert(a.drop_first().to_multiset() == b.drop_first().to_multiset());
        lemma_sorted_unique(a.drop_first(), b.drop_first(), leq);
        assert forall|k: int| 0 <= k < a.len() implies a[k] == b[k] by {
            if k > 0 {
                assert(a[k] == a.drop_first()[k - 1]);
                assert(b[k] == b.drop_first()[k - 1]);
            }
        }
        assert(a =~= b);
    }
}

/// The last element of `s` sits somewhere in any sequence `t` with the same
/// elements, and the rest of the two still have the same elements.
pub proof fn lemma_multiset_remove_last<A>(s: Seq<A>, t: Seq<A>) -> (j: int)
    requires
        s.len() > 0,
        s.to_multiset() == t.to_multiset(),
    ensures
        0 <= j < t.len(),
        t[j] == s.last(),
        s.drop_last().to_multiset() == t.remove(j).to_multiset(),
{
        assert(s.to_multiset().count(s.last()) > 0) by {
        assert(s.contains(s.last())) by {
            assert(s[s.len() - 1] == s.last());
        }
    }
    assert(t.contains(s.last()));
    let j = choose|j: int| 0 <= j < t.len() && t[j] == s.last();
    assert(s.drop_last().push(s.last()) =~= s);
    assert(s.drop_last().to_multiset() =~= s.to_multiset().remove(s.last()));
    j
}

/// Two strictly sorted sequences with the same elements are equal.
pub proof fn lemma_strictly_sorted_unique<T: SortKey>(a: Seq<T::V>, b: Seq<T::V>)
    requires
        strictly_sorted_keys::<T>(a),
        strictly_sorted_keys::<T>(b),
        a.to_set() == b.to_set(),
    ensures
        a == b,
    decreases a.len() + b.len(),
{
    lemma_key_le_facts::<T>();
    if a.len() == 0 || b.len() == 0 {
        if a.len() > 0 {
            assert(a.to_set().contains(a[0]));
        }
        if b.len() > 0 {
            assert(b.to_set().contains(b[0]));
        }
        assert(a =~= b);
    } else {
        assert(a.to_set().contains(a[0]));
        assert(b.contains(a[0]));
        let j = choose|j: int| 0 <= j < b.len() && b[j] == a[0];
        assert(b.to_set().contains(b[0]));
        assert(a.contains(b[0]));
        let i = choose|i: int| 0 <= i < a.len() && a[i] == b[0];
        if j > 0 {
            assert(T::key_le(b[0], b[j]));
        }
        if i > 0 {
            assert(T::key_le(a[0], a[i]));
        }
        assert(a[0] == b[0]);
        let a1 = a.drop_first();
        let b1 = b.drop_first();
        assert forall|e: T::V| a1.to_set().contains(e) <==> b1.to_set().contains(e) by {
            if a1.contains(e) {
                let k = choose|k: int| 0 <= k < a1.len() && a1[k] == e;
                assert(a[k + 1] == e);
                assert(e != a[0]);
                assert(b.to_set().contains(e));
                let m = choose|m: int| 0 <= m < b.len() && b[m] == e;
                assert(m != 0);
                assert(b1[m - 1] == e);
            }
            if b1.contains(e) {
                let k = choose|k: int| 0 <= k < b1.len() && b1[k] == e;
                assert(b[k + 1] == e);
                assert(e != b[0]);
                assert(a.to_set().contains(e));
                let m = choose|m: int| 0 <= m < a.len() && a[m] == e;
                assert(m != 0);
                assert(a1[m - 1] == e);
            }
        }
        assert(a1.to_set() =~= b1.to_set());
        lemma_strictly_sorted_unique::<T>(a1, b1);
        assert(a =~= b) by {
            assert forall|k: int| 0 <= k < a.len() implies a[k] == b[k] by {
                if k > 0 {
                    assert(a[k] == a1[k - 1]);
                    assert(b[k] == b1[k - 1]);
                }
            }
        }
    }
}

/// A sequence sorted by `key_le` is the one that vstd's `sort_by` gives for
/// its multiset of elements.
pub proof fn lemma_sorted_is_sort_by<T: SortKey>(s: Seq<T::V>, t: Seq<T::V>)
    requires
        sorted_keys::<T>(s),
        s.to_multiset() == t.to_multiset(),
    ensures
        s == t.sort_by(key_order::<T>()),
{
    let leq = key_order::<T>();
    T::lemma_key_le_total_ordering();
    t.lemma_sort_by_ensures(leq);
    assert forall|i: int, j: int| 0 <= i < j < s.len() implies #[trigger] leq(s[i], s[j]) by {
        assert(T::key_le(s[i], s[j]));
    }
    lemma_sorted_unique(s, t.sort_by(leq), leq);
}

/// The elements of vstd's `sort_by` for `key_order` are in ascending order.
pub proof fn lemma_sort_by_sorted<T: SortKey>(t: Seq<T::V>)
    ensures
        sorted_keys::<T>(t.sort_by(key_order::<T>())),
        t.sort_by(key_order::<T>()).to_multiset() == t.to_multiset(),
{
    let leq = key_order::<T>();
    T::lemma_key_le_total_ordering();
    t.lemma_sort_by_ensures(leq);
    let s = t.sort_by(leq);
    assert forall|i: int, j: int| 0 <= i < j < s.len() implies T::key_le(#[trigger] s[i], #[trigger] s[j]) by {
        assert(leq(s[i], s[j]));
    }
}

pub proof fn lemma_views_push<T: View>(s: Seq<T>, x: T)
    ensures
        views(s.push(x)) == views(s).push(x@),
{
    assert(views(s.push(x)) =~= views(s).push(x@));
}

pub proof fn lemma_views_add<T: View>(s: Seq<T>, t: Seq<T>)
    ensures
        views(s + t) == views(s) + views(t),
{
    assert(views(s + t) =~= views(s) + views(t));
}

proof fn lemma_to_set_push<A>(s: Seq<A>, x: A)
    ensures
        s.push(x).to_set() == s.to_set().insert(x),
{
    assert forall|e: A| s.push(x).contains(e) <==> s.to_set().insert(x).contains(e) by {
        if s.push(x).contains(e) {
            let i = choose|i: int| 0 <= i < s.push(x).len() && s.push(x)[i] == e;
            if i < s.len() {
                assert(s[i] == e);
            }
        }
        if s.contains(e) {
            let i = choose|i: int| 0 <= i < s.len() && s[i] == e;
            assert(s.push(x)[i] == e);
        }
        if e == x {
            assert(s.push(x)[s.len() as int] == e);
        }
    }
    assert(s.push(x).to_set() =~= s.to_set().insert(x));
}

proof fn lemma_to_set_prepend<A>(x: A, s: Seq<A>)
    ensures
        (seq![x] + s).to_set() == s.to_set().insert(x),
{
    let t = seq![x] + s;
    assert forall|e: A| t.contains(e) <==> s.to_set().insert(x).contains(e) by {
        if t.contains(e) {
            let i = choose|i: int| 0 <= i < t.len() && t[i] == e;
            if i > 0 {
                assert(s[i - 1] == e);
            }
        }
        if s.contains(e) {
            let i = choose|i: int| 0 <= i < s.len() && s[i] == e;
            assert(t[i + 1] == e);
        }
        if e == x {
            assert(t[0] == e);
        }
    }
    assert(t.to_set() =~= s.to_set().insert(x));
}

/// Merges two sorted vectors into one sorted vector holding both.
fn merge<T: SortKey>(a: Vec<T>, b: Vec<T>) -> (r: Vec<T>)
    requires
        sorted_keys::<T>(views(a@)),
        sorted_keys::<T>(views(b@)),
    ensures
        sorted_keys::<T>(views(r@)),
        views(r@).to_multiset() == views(a@).to_multiset().add(views(b@).to_multiset()),
{
    proof {
        lemma_key_le_facts::<T>();
    }
    let ghost a0 = views(a@);
    let ghost b0 = views(b@);
    let mut a = a;
    let mut b = b;
    let mut rev: Vec<T> = Vec::new();
    assert(a0.take(a0.len() as int) =~= a0);
    assert(b0.take(b0.len() as int) =~= b0);
    while a.len() > 0 || b.len() > 0
        invariant
            forall|x: T::V, y: T::V| #[trigger] T::key_le(x, y) || #[trigger] T::key_le(y, x),
            forall|x: T::V, y: T::V, z: T::V|
                #[trigger] T::key_le(x, y) && #[trigger] T::key_le(y, z) ==> T::key_le(x, z),
            sorted_keys::<T>(a0),
            sorted_keys::<T>(b0),
            a.len() <= a0.len(),
            b.len() <= b0.len(),
            views(a@) == a0.take(a.len() as int),
            views(b@) == b0.take(b.len() as int),
            forall|i: int, j: int|
                0 <= i < j < rev.len() ==> T::key_le(#[trigger] views(rev@)[j], #[trigger] views(rev@)[i]),
            forall|k: int|
                0 <= k < rev.len() && a.len() > 0 ==> T::key_le(a0[a.len() - 1], #[trigger] views(rev@)[k]),
            forall|k: int|
                0 <= k < rev.len() && b.len() > 0 ==> T::key_le(b0[b.len() - 1], #[trigger] views(rev@)[k]),
            views(rev@).to_multiset().add(views(a@).to_multiset()).add(views(b@).to_multiset())
                == a0.to_multiset().add(b0.to_multiset()),
        decreases a.len() + b.len(),
    {
        let take_a = if a.len() == 0 {
            false
        } else if b.len() == 0 {
            true
        } else {
            b[b.len() - 1].key_le_exec(&a[a.len() - 1])
        };
        let ghost old_rev = views(rev@);
        let ghost na = a.len() as int;
        let ghost nb = b.len() as int;
        let ghost olda = a@;
        let ghost oldb = b@;
        if take_a {
            let x = a.pop().unwrap();
            proof {
                assert(olda[na - 1] == x);
                assert(views(olda)[na - 1] == x@);
                assert(x@ == a0[na - 1]);
                assert(views(a@) =~= a0.take(na - 1));
                assert(a0.take(na) =~= a0.take(na - 1).push(x@));
                if na > 1 {
                    assert(T::key_le(a0[na - 2], a0[na - 1]));
                }
            }
            rev.push(x);
            proof {
                lemma_views_push(rev@.drop_last(), x);
                assert(rev@.drop_last() =~= rev@.subrange(0, rev@.len() - 1));
                assert(views(rev@) == old_rev.push(x@));
                assert(a.len() == na - 1);
                assert forall|k: int| 0 <= k < rev.len() && a.len() > 0 implies
                    T::key_le(a0[a.len() - 1], #[trigger] views(rev@)[k]) by {
                    if k < old_rev.len() {
                        assert(views(rev@)[k] == old_rev[k]);
                        assert(T::key_le(a0[na - 1], old_rev[k]));
                        assert(T::key_le(a0[na - 2], a0[na - 1]));
                    } else {
                        assert(views(rev@)[k] == a0[na - 1]);
                    }
                }
            }
        } else {
            let x = b.pop().unwrap();
            proof {
                assert(oldb[nb - 1] == x);
                assert(views(oldb)[nb - 1] == x@);
                assert(x@ == b0[nb - 1]);
                assert(views(b@) =~= b0.take(nb - 1));
                assert(b0.take(nb) =~= b0.take(nb - 1).push(x@));
                if nb > 1 {
                    assert(T::key_le(b0[nb - 2], b0[nb - 1]));
                }
                if na > 0 {
                    assert(views(olda)[na - 1] == olda[na - 1]@);
                    assert(!T::key_le(b0[nb - 1], a0[na - 1]));
                    assert(T::key_le(b0[nb - 1], a0[na - 1]) || T::key_le(a0[na - 1], b0[nb - 1]));
                }
            }
            rev.push(x);
            proof {
                assert(rev@.drop_last() =~= rev@.subrange(0, rev@.len() - 1));
                lemma_views_push(rev@.drop_last(), x);
                assert(views(rev@) == old_rev.push(x@));
                assert(b.len() == nb - 1);
                assert forall|k: int| 0 <= k < rev.len() && b.len() > 0 implies
                    T::key_le(b0[b.len() - 1], #[trigger] views(rev@)[k]) by {
                    if k < old_rev.len() {
                        assert(views(rev@)[k] == old_rev[k]);
                        assert(T::key_le(b0[nb - 1], old_rev[k]));
                        assert(T::key_le(b0[nb - 2], b0[nb - 1]));
                    } else {
                        assert(views(rev@)[k] == b0[nb - 1]);
                    }
                }
            }
        }
    }
    proof {
        assert(views(a@) =~= Seq::<T::V>::empty());
        assert(views(b@) =~= Seq::<T::V>::empty());
    }
    let ghost rv = views(rev@);
    let mut r: Vec<T> = Vec::new();
    assert(rv.take(rv.len() as int) =~= rv);
    while rev.len() > 0
        invariant
            r.len() + rev.len() == rv.len(),
            views(rev@) == rv.take(rev.len() as int),
            views(r@) == rv.reverse().take(r.len() as int),
        decreases rev.len(),
    {
        let ghost n = rev.len() as int;
        let ghost oldrev = rev@;
        let x = rev.pop().unwrap();
        proof {
            assert(oldrev[n - 1] == x);
            assert(views(oldrev)[n - 1] == x@);
            assert(x@ == rv[n - 1]);
            assert(views(rev@) =~= rv.take(n - 1));
        }
        r.push(x);
        proof {
            assert(r@.drop_last() =~= r@.subrange(0, r@.len() - 1));
            lemma_views_push(r@.drop_last(), x);
            assert(views(r@) =~= rv.reverse().take(r.len() as int));
        }
    }
    proof {
        assert(views(r@) =~= rv.reverse());
        rv.lemma_reverse_to_multiset();
        assert forall|i: int, j: int| 0 <= i < j < views(r@).len()
            implies T::key_le(#[trigger] views(r@)[i], #[trigger] views(r@)[j]) by {
            let n = rv.len() as int;
            assert(views(r@)[i] == rv[n - 1 - i]);
            assert(views(r@)[j] == rv[n - 1 - j]);
        }
    }
    r
}


/// Reverses a vector.
pub fn reverse_vec<T>(v: Vec<T>) -> (r: Vec<T>)
    ensures
        r@ == v@.reverse(),
{
    let ghost v0 = v@;
    let mut v = v;
    let mut r: Vec<T> = Vec::new();
    while v.len() > 0
        invariant
            r.len() + v.len() == v0.len(),
            v@ == v0.take(v.len() as int),
            r@ == v0.reverse().take(r.len() as int),
        decreases v.len(),
    {
        let ghost n = v.len() as int;
        let x = v.pop().unwrap();
        proof {
            assert(v@ =~= v0.take(n - 1));
        }
        r.push(x);
        proof {
            assert(r@ =~= v0.reverse().take(r.len() as int));
        }
    }
    assert(r@ =~= v0.reverse());
    r
}

fn merge_sort<T: SortKey>(v: Vec<T>) -> (r: Vec<T>)
    ensures
        sorted_keys::<T>(views(r@)),
        views(r@).to_multiset() == views(v@).to_multiset(),
    decreases v@.len(),
{
    if v.len() <= 1 {
        return v;
    }
    let ghost v0 = v@;
    let mut left = v;
    let mid = left.len() / 2;
    let right = left.split_off(mid);
    proof {
        assert(v0 =~= left@ + right@);
        lemma_views_add(left@, right@);
        vstd::seq_lib::lemma_multiset_commutative(views(left@), views(right@));
    }
    let ls = merge_sort(left);
    let rs = merge_sort(right);
    merge(ls, rs)
}

/// Sorts a vector in ascending `key_le` order: the result is vstd's
/// `sort_by` of the input's views.
pub fn sort_keys<T: SortKey>(v: Vec<T>) -> (r: Vec<T>)
    ensures
        views(r@) == views(v@).sort_by(key_order::<T>()),
        sorted_keys::<T>(views(r@)),
        views(r@).to_multiset() == views(v@).to_multiset(),
{
    let r = merge_sort(v);
    proof {
        lemma_sorted_is_sort_by::<T>(views(r@), views(v@));
    }
    r
}

/// Keeps one element of each run of elements with equal views in a sorted
/// vector.
pub fn dedup_sorted<T: SortKey>(v: Vec<T>) -> (r: Vec<T>)
    requires
        sorted_keys::<T>(views(v@)),
    ensures
        strictly_sorted_keys::<T>(views(r@)),
        views(r@).to_set() == views(v@).to_set(),
{
    proof {
        lemma_key_le_facts::<T>();
    }
    let ghost v0 = views(v@);
    let mut v = v;
    let mut rev: Vec<T> = Vec::new();
    assert(v0.skip(v0.len() as int) =~= Seq::<T::V>::empty());
    assert(v0.take(v0.len() as int) =~= v0);
    while v.len() > 0
        invariant
            forall|x: T::V| #[trigger] T::key_le(x, x),
            forall|x: T::V, y: T::V| #[trigger] T::key_le(x, y) && #[trigger] T::key_le(y, x) ==> x == y,
            forall|x: T::V, y: T::V, z: T::V|
                #[trigger] T::key_le(x, y) && #[trigger] T::key_le(y, z) ==> T::key_le(x, z),
            sorted_keys::<T>(v0),
            v.len() <= v0.len(),
            views(v@) == v0.take(v.len() as int),
            forall|i: int, j: int|
                0 <= i < j < rev.len() ==> T::key_le(#[trigger] views(rev@)[j], #[trigger] views(rev@)[i])
                    && views(rev@)[i] != views(rev@)[j],
            views(rev@).to_set() == v0.skip(v.len() as int).to_set(),
            rev.len() > 0 ==> v.len() < v0.len() && views(rev@).last() == v0[v.len() as int],
            rev.len() == 0 ==> v.len() == v0.len(),
        decreases v.len(),
    {
        let ghost n = v.len() as int;
        let ghost oldv = v@;
        let ghost old_rev = views(rev@);
        let x = v.pop().unwrap();
        proof {
            assert(oldv[n - 1] == x);
            assert(views(oldv)[n - 1] == x@);
            assert(x@ == v0[n - 1]);
            assert(views(v@) =~= v0.take(n - 1));
            assert(v0.skip(n - 1) =~= seq![x@] + v0.skip(n));
        }
        let keep = if rev.len() == 0 {
            true
        } else {
            !rev[rev.len() - 1].key_le_exec(&x)
        };
        if keep {
            rev.push(x);
            proof {
                assert(rev@.drop_last() =~= rev@.subrange(0, rev@.len() - 1));
                lemma_views_push(rev@.drop_last(), x);
                assert(views(rev@) == old_rev.push(x@));
                lemma_to_set_push(old_rev, x@);
                lemma_to_set_prepend(x@, v0.skip(n));
                assert(views(rev@).to_set() =~= v0.skip(n - 1).to_set());
                assert forall|i: int, j: int| 0 <= i < j < rev.len() implies
                    T::key_le(#[trigger] views(rev@)[j], #[trigger] views(rev@)[i])
                        && views(rev@)[i] != views(rev@)[j] by {
                    if j == rev.len() - 1 {
                        let m = old_rev.len() - 1;
                        assert(T::key_le(v0[n - 1], v0[n]));
                        if i < m {
                            assert(T::key_le(old_rev[m], old_rev[i]));
                        }
                    }
                }
            }
        } else {
            proof {
                assert(T::key_le(v0[n - 1], v0[n]));
                assert(x@ == old_rev.last());
                assert(old_rev.contains(x@)) by {
                    assert(old_rev[old_rev.len() - 1] == x@);
                }
                assert(old_rev.to_set().contains(x@));
                lemma_to_set_prepend(x@, v0.skip(n));
                assert(views(rev@).to_set() =~= v0.skip(n - 1).to_set());
            }
        }
    }
    let r = reverse_vec(rev);
    proof {
        let rv = views(rev@);
        assert(views(r@) =~= rv.reverse());
        assert(v0.skip(0) =~= v0);
        assert(views(r@).to_set() =~= rv.to_set()) by {
            assert forall|e: T::V| views(r@).contains(e) <==> rv.contains(e) by {
                if views(r@).contains(e) {
                    let i = choose|i: int| 0 <= i < views(r@).len() && views(r@)[i] == e;
                    assert(rv[rv.len() - 1 - i] == e);
                }
                if rv.contains(e) {
                    let i = choose|i: int| 0 <= i < rv.len() && rv[i] == e;
                    assert(views(r@)[rv.len() - 1 - i] == e);
                }
            }
        }
    }
    r
}

/// Finds the position of an element with the given view in a sorted vector.
pub fn find_sorted<T: SortKey>(v: &Vec<T>, x: &T) -> (r: Option<usize>)
    requires
        sorted_keys::<T>(views(v@)),
    ensures
        match r {
            Some(i) => i < v@.len() && v@[i as int]@ == x@,
            None => !views(v@).contains(x@),
        },
{
    proof {
        lemma_key_le_facts::<T>();
    }
    let mut lo: usize = 0;
    let mut hi: usize = v.len();
    while lo < hi
        invariant
            forall|a: T::V, b: T::V| #[trigger] T::key_le(a, b) || #[trigger] T::key_le(b, a),
            forall|a: T::V, b: T::V| #[trigger] T::key_le(a, b) && #[trigger] T::key_le(b, a) ==> a == b,
            forall|a: T::V, b: T::V, c: T::V|
                #[trigger] T::key_le(a, b) && #[trigger] T::key_le(b, c) ==> T::key_le(a, c),
            sorted_keys::<T>(views(v@)),
            lo <= hi <= v@.len(),
            forall|i: int| 0 <= i < lo ==> #[trigger] views(v@)[i] != x@,
            forall|i: int| hi <= i < v@.len() ==> #[trigger] views(v@)[i] != x@,
        decreases hi - lo,
    {
        let mid = lo + (hi - lo) / 2;
        proof {
            assert(views(v@)[mid as int] == v@[mid as int]@);
        }
        if v[mid].key_le_exec(x) {
            if x.key_le_exec(&v[mid]) {
                return Some(mid);
            }
            proof {
                assert forall|i: int| 0 <= i < mid + 1 implies #[trigger] views(v@)[i] != x@ by {
                    if i < mid {
                        assert(T::key_le(views(v@)[i], views(v@)[mid as int]));
                    }
                }
            }
            lo = mid + 1;
        } else {
            proof {
                assert forall|i: int| mid <= i < v@.len() implies #[trigger] views(v@)[i] != x@ by {
                    if i > mid {
                        assert(T::key_le(views(v@)[mid as int], views(v@)[i]));
                    }
                }
            }
            hi = mid;
        }
    }
    None
}

/// The distinct items of `v`, in ascending order.
pub fn sorted_unique<T: SortKey>(v: Vec<T>) -> (r: Vec<T>)
    ensures
        strictly_sorted_keys::<T>(views(r@)),
        views(r@).to_set() == views(v@).to_set(),
{
    let ghost listed = views(v@);
    let sorted = sort_keys(v);
    let r = dedup_sorted(sorted);
    proof {
        assert forall|e: T::V| views(r@).to_set().contains(e) <==> listed.to_set().contains(e) by {
            assert(views(r@).to_set().contains(e) == views(sorted@).to_set().contains(e));
            vstd::seq_lib::to_multiset_contains(views(sorted@), e);
            vstd::seq_lib::to_multiset_contains(listed, e);
        }
        assert(views(r@).to_set() =~= listed.to_set());
    }
    r
}

} // verus!
