//! What the heaps promise, stated over multisets.
//!
//! All three heaps (leftist, binomial, binomial with cached minimum) abstract
//! to a multiset of values. Their accessors are specified through the
//! minimum of that multiset, and [`drain`] describes the sequence obtained by
//! repeatedly taking and deleting the minimum until the heap is empty. The
//! lemmas here state the laws shared by every heap: draining yields a
//! non-decreasing sequence made of exactly the heap's elements, and the drain
//! of a merge does not depend on the order of the merge's arguments.

use vstd::multiset::Multiset;
use vstd::prelude::*;

verus! {

broadcast use vstd::multiset::group_multiset_axioms;

/// `m` is the minimum of `s`: it occurs in `s` and is at most every element.
pub open spec fn is_min(m: i64, s: Multiset<i64>) -> bool {
    s.count(m) > 0 && forall|x: i64| s.count(x) > 0 ==> m <= x
}

/// `x` is at most every element of `s`.
pub open spec fn le_all(x: i64, s: Multiset<i64>) -> bool {
    forall|y: i64| s.count(y) > 0 ==> x <= y
}

/// The minimum of a non-empty multiset (see [`lemma_min_of`]).
pub open spec fn min_of(s: Multiset<i64>) -> i64 {
    choose|m: i64| is_min(m, s)
}

/// Every non-empty multiset of values has a minimum, and `min_of` is it.
pub proof fn lemma_min_of(s: Multiset<i64>)
    requires
        s.len() > 0,
    ensures
        is_min(min_of(s), s),
    decreases s.len(),
{
    let c = s.choose();
    let s2 = s.remove(c);
    assert(Multiset::singleton(c).subset_of(s));
    if s2.len() == 0 {
        assert forall|x: i64| s.count(x) > 0 implies c <= x by {
            if x != c {
                assert(s2.count(x) == s.count(x));
            }
        }
        assert(is_min(c, s));
    } else {
        lemma_min_of(s2);
        let m2 = min_of(s2);
        if m2 <= c {
            assert forall|x: i64| s.count(x) > 0 implies m2 <= x by {
                if x != c {
                    assert(s2.count(x) == s.count(x));
                }
            }
            assert(is_min(m2, s));
        } else {
            assert forall|x: i64| s.count(x) > 0 implies c <= x by {
                if x != c {
                    assert(s2.count(x) == s.count(x));
                    assert(m2 <= x);
                }
            }
            assert(is_min(c, s));
        }
    }
}

/// A multiset has at most one minimum, so any value shown to be a minimum is
/// `min_of`.
pub proof fn lemma_is_min_unique(m: i64, s: Multiset<i64>)
    requires
        is_min(m, s),
    ensures
        m == min_of(s),
{
    lemma_min_of(s);
}

/// The sequence obtained from a heap holding `s` by repeatedly taking the
/// minimum and deleting it, until the heap is empty.
pub open spec fn drain(s: Multiset<i64>) -> Seq<i64>
    decreases s.len(),
    via drain_decreases
{
    if s.len() == 0 {
        Seq::empty()
    } else {
        seq![min_of(s)] + drain(s.remove(min_of(s)))
    }
}

#[via_fn]
proof fn drain_decreases(s: Multiset<i64>) {
    broadcast use vstd::multiset::group_multiset_axioms;

    if s.len() != 0 {
        lemma_min_of(s);
        assert(Multiset::singleton(min_of(s)).subset_of(s));
    }
}

/// Draining produces one value per element of the heap.
pub proof fn lemma_drain_len(s: Multiset<i64>)
    ensures
        drain(s).len() == s.len(),
    decreases s.len(),
{
    if s.len() != 0 {
        lemma_min_of(s);
        assert(Multiset::singleton(min_of(s)).subset_of(s));
        lemma_drain_len(s.remove(min_of(s)));
    }
}

/// Every value produced by draining is an element of the heap.
pub proof fn lemma_drain_membership(s: Multiset<i64>)
    ensures
        forall|i: int| 0 <= i < drain(s).len() ==> s.count(#[trigger] drain(s)[i]) > 0,
    decreases s.len(),
{
    if s.len() != 0 {
        lemma_min_of(s);
        let m = min_of(s);
        let s2 = s.remove(m);
        assert(Multiset::singleton(m).subset_of(s));
        lemma_drain_membership(s2);
        assert forall|i: int| 0 <= i < drain(s).len() implies s.count(
            #[trigger] drain(s)[i],
        ) > 0 by {
            if i > 0 {
                let x = drain(s2)[i - 1];
                assert(drain(s)[i] == x);
                assert(s2.count(x) > 0);
            }
        }
    }
}

/// The heap-sort law: repeatedly taking and deleting the minimum yields the
/// heap's values in non-decreasing order until the heap is empty.
pub proof fn lemma_drain_sorted(s: Multiset<i64>)
    ensures
        forall|i: int, j: int|
            0 <= i <= j < drain(s).len() ==> #[trigger] drain(s)[i] <= #[trigger] drain(s)[j],
    decreases s.len(),
{
    if s.len() != 0 {
        lemma_min_of(s);
        let m = min_of(s);
        let s2 = s.remove(m);
        assert(Multiset::singleton(m).subset_of(s));
        lemma_drain_sorted(s2);
        lemma_drain_membership(s2);
        assert forall|i: int, j: int|
            0 <= i <= j < drain(s).len() implies #[trigger] drain(s)[i]
            <= #[trigger] drain(s)[j] by {
            if i == 0 && j > 0 {
                let x = drain(s2)[j - 1];
                assert(drain(s)[j] == x);
                assert(s2.count(x) > 0);
                assert(s.count(x) > 0);
            } else if i > 0 {
                assert(drain(s)[i] == drain(s2)[i - 1]);
                assert(drain(s)[j] == drain(s2)[j - 1]);
            }
        }
    }
}

/// Merging is commutative in the extracted sequence: draining a heap that
/// holds the union of `a` and `b` yields the same sequence as draining one
/// that holds the union of `b` and `a`.
pub proof fn lemma_drain_add_commutes(a: Multiset<i64>, b: Multiset<i64>)
    ensures
        drain(a.add(b)) == drain(b.add(a)),
{
    assert(a.add(b) =~= b.add(a));
}

} // verus!
