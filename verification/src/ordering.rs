//! Stable ordering of sequences under a comparison `leq` ("at most").
//!
//! `sort_in_order(s, leq)` is the stable sort of `s`: it inserts the elements of
//! `s` one after another, each after every element already placed that is at
//! most it. The lemmas show that the result holds the same elements and, for a
//! total preorder, is sorted.
use vstd::prelude::*;
use vstd::relations::*;

verus! {

/// Inserts `x` into `s` after the last run of elements, counted from the end,
/// that are not at most `x`.
pub open spec fn insert_in_order<T>(s: Seq<T>, x: T, leq: spec_fn(T, T) -> bool) -> Seq<T>
    decreases s.len(),
{
    if s.len() == 0 || leq(s.last(), x) {
        s.push(x)
    } else {
        insert_in_order(s.drop_last(), x, leq).push(s.last())
    }
}

/// The stable sort of `s` under `leq`.
pub open spec fn sort_in_order<T>(s: Seq<T>, leq: spec_fn(T, T) -> bool) -> Seq<T>
    decreases s.len(),
{
    if s.len() == 0 {
        s
    } else {
        insert_in_order(sort_in_order(s.drop_last(), leq), s.last(), leq)
    }
}

/// `leq` is a total preorder: any two elements compare, and it is transitive.
pub open spec fn total_preorder<T>(leq: spec_fn(T, T) -> bool) -> bool {
    &&& strongly_connected(leq)
    &&& transitive(leq)
}

/// Where the scan from the end stops: every element from `pos` on is not at
/// most `x`, and the element before `pos`, if any, is.
pub open spec fn insertion_point<T>(s: Seq<T>, x: T, pos: int, leq: spec_fn(T, T) -> bool) -> bool {
    &&& 0 <= pos <= s.len()
    &&& forall|k: int| pos <= k < s.len() ==> !leq(#[trigger] s[k], x)
    &&& pos > 0 ==> leq(s[pos - 1], x)
}

/// Inserting at the insertion point found by scanning from the end gives
/// `insert_in_order`.
pub proof fn lemma_insert_at_point<T>(s: Seq<T>, x: T, pos: int, leq: spec_fn(T, T) -> bool)
    requires
        insertion_point(s, x, pos, leq),
    ensures
        insert_in_order(s, x, leq) == s.insert(pos, x),
    decreases s.len(),
{
    if s.len() == pos {
        assert(s.insert(pos, x) =~= s.push(x));
    } else {
        assert(!leq(s[s.len() - 1], x));
        let d = s.drop_last();
        assert forall|k: int| pos <= k < d.len() implies !leq(#[trigger] d[k], x) by {
            assert(d[k] == s[k]);
        }
        lemma_insert_at_point(d, x, pos, leq);
        assert(s.insert(pos, x) =~= d.insert(pos, x).push(s.last()));
    }
}

/// `insert_in_order` adds exactly `x` to the elements of `s`.
pub proof fn lemma_insert_multiset<T>(s: Seq<T>, x: T, leq: spec_fn(T, T) -> bool)
    ensures
        insert_in_order(s, x, leq).to_multiset() == s.to_multiset().insert(x),
    decreases s.len(),
{
    broadcast use vstd::seq_lib::group_to_multiset_ensures;

    if s.len() == 0 || leq(s.last(), x) {
    } else {
        let d = s.drop_last();
        lemma_insert_multiset(d, x, leq);
        assert(s == d.push(s.last()));
        assert(insert_in_order(s, x, leq).to_multiset() =~= d.to_multiset().insert(x).insert(
            s.last(),
        ));
        assert(s.to_multiset() =~= d.to_multiset().insert(s.last()));
    }
}

/// The stable sort keeps exactly the elements of its input.
pub proof fn lemma_sort_multiset<T>(s: Seq<T>, leq: spec_fn(T, T) -> bool)
    ensures
        sort_in_order(s, leq).to_multiset() == s.to_multiset(),
    decreases s.len(),
{
    broadcast use vstd::seq_lib::group_to_multiset_ensures;

    if s.len() > 0 {
        let d = s.drop_last();
        lemma_sort_multiset(d, leq);
        lemma_insert_multiset(sort_in_order(d, leq), s.last(), leq);
        assert(s == d.push(s.last()));
    }
}

/// Every element of `insert_in_order(s, x)` is `x` or an element of `s`.
proof fn lemma_insert_elements<T>(s: Seq<T>, x: T, leq: spec_fn(T, T) -> bool, i: int)
    requires
        0 <= i < insert_in_order(s, x, leq).len(),
    ensures
        insert_in_order(s, x, leq).len() == s.len() + 1,
        insert_in_order(s, x, leq)[i] == x || s.contains(insert_in_order(s, x, leq)[i]),
    decreases s.len(),
{
    if s.len() == 0 || leq(s.last(), x) {
        if i < s.len() {
            assert(s.contains(s[i]));
        }
    } else {
        let d = s.drop_last();
        let r = insert_in_order(d, x, leq);
        if i < r.len() {
            lemma_insert_elements(d, x, leq, i);
            if r[i] != x {
                let k = choose|k: int| 0 <= k < d.len() && d[k] == r[i];
                assert(s[k] == r[i]);
            }
        } else {
            lemma_insert_elements(d, x, leq, 0);
            assert(s.contains(s[s.len() - 1]));
        }
    }
}

/// Under a total preorder, inserting into a sorted sequence keeps it sorted.
pub proof fn lemma_insert_sorted<T>(s: Seq<T>, x: T, leq: spec_fn(T, T) -> bool)
    requires
        total_preorder(leq),
        sorted_by(s, leq),
    ensures
        sorted_by(insert_in_order(s, x, leq), leq),
    decreases s.len(),
{
    let r = insert_in_order(s, x, leq);
    if s.len() == 0 || leq(s.last(), x) {
        assert forall|i: int, j: int| 0 <= i < j < r.len() implies #[trigger] leq(r[i], r[j]) by {
            if j == s.len() && i < s.len() - 1 {
                assert(leq(s[i], s[s.len() - 1]));
            }
        }
    } else {
        let d = s.drop_last();
        let last = s.last();
        assert(sorted_by(d, leq)) by {
            assert forall|i: int, j: int| 0 <= i < j < d.len() implies #[trigger] leq(
                d[i],
                d[j],
            ) by {
                assert(leq(s[i], s[j]));
            }
        }
        lemma_insert_sorted(d, x, leq);
        let t = insert_in_order(d, x, leq);
        assert(leq(x, last));
        assert forall|i: int, j: int| 0 <= i < j < r.len() implies #[trigger] leq(r[i], r[j]) by {
            if j == r.len() - 1 {
                lemma_insert_elements(d, x, leq, i);
                if t[i] != x {
                    let k = choose|k: int| 0 <= k < d.len() && d[k] == t[i];
                    assert(leq(s[k], s[s.len() - 1]));
                }
            } else {
                assert(leq(t[i], t[j]));
            }
        }
    }
}

/// Under a total preorder, the stable sort is sorted.
pub proof fn lemma_sort_sorted<T>(s: Seq<T>, leq: spec_fn(T, T) -> bool)
    requires
        total_preorder(leq),
    ensures
        sorted_by(sort_in_order(s, leq), leq),
    decreases s.len(),
{
    if s.len() > 0 {
        lemma_sort_sorted(s.drop_last(), leq);
        lemma_insert_sorted(sort_in_order(s.drop_last(), leq), s.last(), leq);
    }
}

/// Under an antisymmetric total preorder, two sorted sequences holding the
/// same elements are equal: the sorted order of a collection is unique.
pub proof fn lemma_sorted_unique<T>(a: Seq<T>, b: Seq<T>, leq: spec_fn(T, T) -> bool)
    requires
        total_preorder(leq),
        antisymmetric(leq),
        sorted_by(a, leq),
        sorted_by(b, leq),
        a.to_multiset() == b.to_multiset(),
    ensures
        a == b,
    decreases a.len(),
{
    broadcast use vstd::seq_lib::group_to_multiset_ensures;

    assert(a.len() == b.len()) by {
        a.to_multiset_ensures();
        b.to_multiset_ensures();
    }
    if a.len() == 0 {
        assert(a =~= b);
    } else {
        assert(a.contains(a[0]));
        assert(b.to_multiset().count(a[0]) > 0);
        assert(b.contains(a[0]));
        let k = choose|k: int| 0 <= k < b.len() && b[k] == a[0];
        assert(leq(b[0], a[0])) by {
            if k > 0 {
                assert(leq(b[0], b[k]));
            } else {
                assert(leq(b[0], b[0]) || leq(b[0], b[0]));
            }
        }
        assert(b.contains(b[0]));
        assert(a.to_multiset().count(b[0]) > 0);
        assert(a.contains(b[0]));
        let m = choose|m: int| 0 <= m < a.len() && a[m] == b[0];
        assert(leq(a[0], b[0])) by {
            if m > 0 {
                assert(leq(a[0], a[m]));
            } else {
                assert(leq(a[0], a[0]) || leq(a[0], a[0]));
            }
        }
        assert(a[0] == b[0]);
        let a1 = a.drop_first();
        let b1 = b.drop_first();
        assert(a.remove(0) == a1);
        assert(b.remove(0) == b1);
        assert(a1.to_multiset() == a.to_multiset().remove(a[0]));
        assert(b1.to_multiset() == b.to_multiset().remove(b[0]));
        assert(sorted_by(a1, leq)) by {
            assert forall|i: int, j: int| 0 <= i < j < a1.len() implies #[trigger] leq(a1[i], a1[j]) by {
                assert(leq(a[i + 1], a[j + 1]));
            }
        }
        assert(sorted_by(b1, leq)) by {
            assert forall|i: int, j: int| 0 <= i < j < b1.len() implies #[trigger] leq(b1[i], b1[j]) by {
                assert(leq(b[i + 1], b[j + 1]));
            }
        }
        lemma_sorted_unique(a1, b1, leq);
        assert(a =~= b) by {
            assert forall|i: int| 0 <= i < a.len() implies a[i] == b[i] by {
                if i > 0 {
                    assert(a1[i - 1] == b1[i - 1]);
                }
            }
        }
    }
}

} // verus!
