//! Persistent leftist heap.
//!
//! A node records its rank: the length of its right spine, the path that
//! follows only right children down to a leaf. The leftist property — every
//! node's left child has rank at least that of its right child — keeps the
//! right spine logarithmic, and `merge` only ever walks right spines.
//!
//! Stored ranks saturate at `u64::MAX`; a right spine of that length can
//! never be built in practice, and below the cap the stored rank is exactly
//! the spine length.

use std::rc::Rc;
use vstd::multiset::Multiset;
use vstd::prelude::*;

use crate::Error;
use crate::order::{le_all, lemma_is_min_unique, min_of};

verus! {

broadcast use vstd::multiset::group_multiset_axioms, vstd::seq_lib::group_to_multiset_ensures;

enum Tree {
    Leaf,
    Knot(u64, i64, Rc<Tree>, Rc<Tree>),
}

/// The rank one above `r`, saturating at `u64::MAX`.
spec fn next_rank(r: u64) -> u64 {
    if r == u64::MAX {
        u64::MAX
    } else {
        (r + 1) as u64
    }
}

impl Tree {
    /// The multiset of values in the tree.
    spec fn mset(self) -> Multiset<i64>
        decreases self,
    {
        match self {
            Tree::Leaf => Multiset::empty(),
            Tree::Knot(_, v, a, b) => Multiset::singleton(v).add((*a).mset()).add((*b).mset()),
        }
    }

    /// The stored rank of the root.
    spec fn rk(self) -> u64 {
        match self {
            Tree::Leaf => 0,
            Tree::Knot(r, _, _, _) => r,
        }
    }

    /// Well-formedness: ranks are consistent with the right spine, the left
    /// child's rank is at least the right child's, and the root value is at
    /// most every value below it.
    spec fn wf(self) -> bool
        decreases self,
    {
        match self {
            Tree::Leaf => true,
            Tree::Knot(r, v, a, b) => {
                &&& r == next_rank((*b).rk())
                &&& (*a).rk() >= (*b).rk()
                &&& le_all(v, (*a).mset())
                &&& le_all(v, (*b).mset())
                &&& (*a).wf()
                &&& (*b).wf()
            },
        }
    }
}

impl Clone for Tree {
    /// Cloning copies one node; children are shared.
    fn clone(&self) -> (r: Self)
        ensures
            r == *self,
    {
        match self {
            Tree::Leaf => Tree::Leaf,
            Tree::Knot(r, v, a, b) => Tree::Knot(*r, *v, Rc::clone(a), Rc::clone(b)),
        }
    }
}

/// The root of a well-formed non-leaf tree is at most every value in it.
proof fn lemma_root_min(t: Tree)
    requires
        t.wf(),
    ensures
        t matches Tree::Knot(_, v, _, _) ==> le_all(v, t.mset()) && t.mset().count(v) > 0,
{
}

fn tree_rank(t: &Tree) -> (r: u64)
    ensures
        r == t.rk(),
{
    match t {
        Tree::Leaf => 0,
        Tree::Knot(r, _, _, _) => *r,
    }
}

/// Attach the higher-rank child on the left, and record the resulting rank.
fn make_knot(x: i64, a: Rc<Tree>, b: Rc<Tree>) -> (t: Tree)
    requires
        (*a).wf(),
        (*b).wf(),
        le_all(x, (*a).mset()),
        le_all(x, (*b).mset()),
    ensures
        t.wf(),
        t.mset() == Multiset::singleton(x).add((*a).mset()).add((*b).mset()),
        t matches Tree::Knot(_, v, _, _) && v == x,
{
    let ra = tree_rank(&a);
    let rb = tree_rank(&b);
    if ra >= rb {
        let r = if rb == u64::MAX {
            u64::MAX
        } else {
            rb + 1
        };
        Tree::Knot(r, x, a, b)
    } else {
        let r = if ra == u64::MAX {
            u64::MAX
        } else {
            ra + 1
        };
        let t = Tree::Knot(r, x, b, a);
        proof {
            assert(t.mset() =~= Multiset::singleton(x).add((*a).mset()).add((*b).mset()));
        }
        t
    }
}

/// Classic leftist merge: follow the right spines of both trees, always
/// keeping the smaller root, then restore the leftist property on the way
/// back up.
fn merge_tree(x: &Tree, y: &Tree) -> (t: Tree)
    requires
        x.wf(),
        y.wf(),
    ensures
        t.wf(),
        t.mset() == x.mset().add(y.mset()),
    decreases *x, *y,
{
    match (x, y) {
        (Tree::Leaf, _) => {
            let t = y.clone();
            proof {
                assert(t.mset() =~= x.mset().add(y.mset()));
            }
            t
        },
        (_, Tree::Leaf) => {
            let t = x.clone();
            proof {
                assert(t.mset() =~= x.mset().add(y.mset()));
            }
            t
        },
        (Tree::Knot(_, vx, a1, b1), Tree::Knot(_, vy, a2, b2)) => {
            proof {
                lemma_root_min(*x);
                lemma_root_min(*y);
            }
            if *vx <= *vy {
                let m = merge_tree(b1, y);
                let t = make_knot(*vx, Rc::clone(a1), Rc::new(m));
                proof {
                    assert(t.mset() =~= x.mset().add(y.mset()));
                }
                t
            } else {
                let m = merge_tree(x, b2);
                let t = make_knot(*vy, Rc::clone(a2), Rc::new(m));
                proof {
                    assert(t.mset() =~= x.mset().add(y.mset()));
                }
                t
            }
        },
    }
}

/// A direct recursive insert that mirrors `merge` without building a
/// singleton heap at each level.
fn insert_tree(t: &Tree, v: i64) -> (r: Tree)
    requires
        t.wf(),
    ensures
        r.wf(),
        r.mset() == t.mset().insert(v),
    decreases *t,
{
    match t {
        Tree::Leaf => {
            let r = Tree::Knot(1, v, Rc::new(Tree::Leaf), Rc::new(Tree::Leaf));
            proof {
                assert(r.mset() =~= t.mset().insert(v));
            }
            r
        },
        Tree::Knot(_, x, a, b) => {
            proof {
                lemma_root_min(*t);
            }
            if *x <= v {
                let m = insert_tree(b, v);
                let r = make_knot(*x, Rc::clone(a), Rc::new(m));
                proof {
                    assert(r.mset() =~= t.mset().insert(v));
                }
                r
            } else {
                let r = make_knot(v, Rc::new(Tree::Leaf), Rc::new(t.clone()));
                proof {
                    assert(r.mset() =~= t.mset().insert(v));
                }
                r
            }
        },
    }
}

/// A persistent leftist heap of values.
///
/// The abstract value is the multiset of the stored values.
pub struct LeftHeap {
    root: Tree,
}

impl View for LeftHeap {
    type V = Multiset<i64>;

    closed spec fn view(&self) -> Multiset<i64> {
        self.root.mset()
    }
}

impl LeftHeap {
    /// The rank of the heap: the length of its right spine (saturating at
    /// `u64::MAX`), the quantity the leftist property keeps logarithmic.
    pub closed spec fn spec_rank(&self) -> u64 {
        self.root.rk()
    }
}

impl LeftHeap {
    #[verifier::type_invariant]
    spec fn inv(self) -> bool {
        self.root.wf()
    }
}

impl Clone for LeftHeap {
    /// Cloning a heap copies the root node; the whole structure is shared.
    fn clone(&self) -> (h: Self)
        ensures
            h == *self,
    {
        proof {
            use_type_invariant(self);
        }
        LeftHeap { root: self.root.clone() }
    }
}

impl LeftHeap {
    /// The empty heap.
    pub fn empty() -> (h: Self)
        ensures
            h@ == Multiset::<i64>::empty(),
    {
        LeftHeap { root: Tree::Leaf }
    }

    /// The rank of the heap: the length of its right spine.
    pub fn rank(&self) -> (r: u64)
        ensures
            r == self.spec_rank(),
            r == 0 <==> self@.len() == 0,
    {
        proof {
            use_type_invariant(self);
        }
        tree_rank(&self.root)
    }

    /// Whether the heap holds no element.
    pub fn is_empty(&self) -> (r: bool)
        ensures
            r <==> self@.len() == 0,
    {
        match &self.root {
            Tree::Leaf => true,
            _ => false,
        }
    }

    /// The heap holding every element of `self` and every element of `rhs`;
    /// both inputs stay valid.
    pub fn merge(&self, rhs: &Self) -> (h: Self)
        ensures
            h@ == self@.add(rhs@),
    {
        proof {
            use_type_invariant(self);
            use_type_invariant(rhs);
        }
        LeftHeap { root: merge_tree(&self.root, &rhs.root) }
    }

    /// The heap with one more instance of `v`.
    pub fn insert(&self, v: i64) -> (h: Self)
        ensures
            h@ == self@.insert(v),
    {
        proof {
            use_type_invariant(self);
        }
        LeftHeap { root: insert_tree(&self.root, v) }
    }

    /// The least element, or `EmptyCollection` on the empty heap.
    pub fn find_min(&self) -> (r: Result<i64, Error>)
        ensures
            self@.len() > 0 ==> (r matches Ok(m) && m == min_of(self@)),
            self@.len() == 0 ==> (r matches Err(e) && e == Error::EmptyCollection),
    {
        proof {
            use_type_invariant(self);
        }
        match &self.root {
            Tree::Leaf => Err(Error::EmptyCollection),
            Tree::Knot(_, x, _, _) => {
                proof {
                    lemma_root_min(self.root);
                    lemma_is_min_unique(*x, self@);
                }
                Ok(*x)
            },
        }
    }

    /// The heap without one instance of its least element, or
    /// `EmptyCollection` on the empty heap.
    pub fn delete_min(&self) -> (r: Result<Self, Error>)
        ensures
            self@.len() > 0 ==> (r matches Ok(h) && h@ == self@.remove(min_of(self@))),
            self@.len() == 0 ==> (r matches Err(e) && e == Error::EmptyCollection),
    {
        proof {
            use_type_invariant(self);
        }
        match &self.root {
            Tree::Leaf => Err(Error::EmptyCollection),
            Tree::Knot(_, x, a, b) => {
                let h = LeftHeap { root: merge_tree(a, b) };
                proof {
                    lemma_root_min(self.root);
                    lemma_is_min_unique(*x, self@);
                    assert(h@ =~= self@.remove(min_of(self@)));
                }
                Ok(h)
            },
        }
    }

    /// The heap holding every element of the slice, built by a bottom-up
    /// merge tournament: adjacent pairs are merged repeatedly, so the whole
    /// construction is linear rather than `n` single inserts.
    pub fn from_slice(a: &[i64]) -> (h: Self)
        requires
            a@.len() >= 1,
        ensures
            h@ == a@.to_multiset(),
    {
        let mut heaps: Vec<LeftHeap> = Vec::new();
        let mut i: usize = 0;
        while i < a.len()
            invariant
                i <= a@.len(),
                heaps@.len() == i,
                forall|k: int| 0 <= k < i ==> (#[trigger] heaps@[k])@ == Multiset::singleton(a@[k]),
            decreases a@.len() - i,
        {
            let t = Tree::Knot(1, a[i], Rc::new(Tree::Leaf), Rc::new(Tree::Leaf));
            proof {
                assert(Tree::Leaf.wf());
                assert(Tree::Leaf.mset() =~= Multiset::<i64>::empty());
                assert(t.wf());
                assert(t.mset() =~= Multiset::singleton(a@[i as int]));
            }
            let h = LeftHeap { root: t };
            heaps.push(h);
            i += 1;
        }
        proof {
            lemma_msum_to_multiset(heaps@, a@);
        }
        while heaps.len() > 1
            invariant
                heaps@.len() >= 1,
                msum(heaps@) == a@.to_multiset(),
            decreases heaps@.len(),
        {
            let mut next: Vec<LeftHeap> = Vec::new();
            let mut j: usize = 0;
            proof {
                assert(heaps@.skip(0) =~= heaps@);
                assert(next@ =~= Seq::<LeftHeap>::empty());
                assert(msum(Seq::<LeftHeap>::empty()) == Multiset::<i64>::empty());
                assert(msum(next@).add(msum(heaps@.skip(0))) =~= msum(heaps@));
            }
            while j < heaps.len()
                invariant
                    j <= heaps@.len(),
                    j % 2 == 0 || j == heaps@.len(),
                    next@.len() == (j + 1) / 2,
                    msum(next@).add(msum(heaps@.skip(j as int))) == msum(heaps@),
                decreases heaps@.len() - j,
            {
                let ghost pre = next@;
                if j + 1 == heaps.len() {
                    let h = heaps[j].clone();
                    next.push(h);
                    proof {
                        lemma_msum_push(pre, heaps@[j as int]);
                        assert(heaps@.skip(j as int).skip(1) =~= heaps@.skip(j as int + 1));
                        assert(heaps@.skip(j as int + 1) =~= Seq::<LeftHeap>::empty());
                        assert(msum(Seq::<LeftHeap>::empty()) == Multiset::<i64>::empty());
                        assert(heaps@.skip(j as int)[0] == heaps@[j as int]);
                        assert(msum(heaps@.skip(j as int)) == heaps@[j as int]@.add(
                            msum(heaps@.skip(j as int + 1)),
                        ));
                        assert(msum(next@).add(msum(heaps@.skip(j as int + 1))) =~= msum(
                            heaps@,
                        ));
                    }
                    j += 1;
                } else {
                    let h = heaps[j].merge(&heaps[j + 1]);
                    next.push(h);
                    proof {
                        lemma_msum_push(pre, next@[next@.len() - 1]);
                        assert(heaps@.skip(j as int)[0] == heaps@[j as int]);
                        assert(heaps@.skip(j as int).skip(1) =~= heaps@.skip(j as int + 1));
                        assert(heaps@.skip(j as int + 1)[0] == heaps@[j as int + 1]);
                        assert(heaps@.skip(j as int + 1).skip(1) =~= heaps@.skip(j as int + 2));
                        assert(msum(heaps@.skip(j as int)) == heaps@[j as int]@.add(
                            msum(heaps@.skip(j as int + 1)),
                        ));
                        assert(msum(heaps@.skip(j as int + 1)) == heaps@[j as int + 1]@.add(
                            msum(heaps@.skip(j as int + 2)),
                        ));
                        assert(msum(next@).add(msum(heaps@.skip(j as int + 2))) =~= msum(
                            heaps@,
                        ));
                    }
                    j += 2;
                }
            }
            proof {
                assert(heaps@.skip(j as int) =~= Seq::<LeftHeap>::empty());
                assert(msum(Seq::<LeftHeap>::empty()) == Multiset::<i64>::empty());
                assert(msum(next@) =~= msum(heaps@));
            }
            heaps = next;
        }
        let ghost pre = heaps@;
        let h = heaps.pop().unwrap();
        proof {
            assert(pre =~= seq![h]);
            assert(seq![h].skip(1) =~= Seq::<LeftHeap>::empty());
            assert(msum(Seq::<LeftHeap>::empty()) == Multiset::<i64>::empty());
            assert(msum(seq![h]) == h@.add(msum(seq![h].skip(1))));
            assert(h@ =~= a@.to_multiset());
        }
        h
    }
}

/// The union of the abstract values of a sequence of heaps.
spec fn msum(hs: Seq<LeftHeap>) -> Multiset<i64>
    decreases hs.len(),
{
    if hs.len() == 0 {
        Multiset::empty()
    } else {
        hs[0]@.add(msum(hs.skip(1)))
    }
}

proof fn lemma_msum_push(hs: Seq<LeftHeap>, h: LeftHeap)
    ensures
        msum(hs.push(h)) == msum(hs).add(h@),
    decreases hs.len(),
{
    if hs.len() == 0 {
        assert(hs.push(h)[0] == h);
        assert(hs.push(h).skip(1) =~= Seq::<LeftHeap>::empty());
        assert(msum(Seq::<LeftHeap>::empty()) == Multiset::<i64>::empty());
        assert(msum(hs.push(h)) == h@.add(msum(hs.push(h).skip(1))));
        assert(hs =~= Seq::<LeftHeap>::empty());
        assert(msum(hs.push(h)) =~= msum(hs).add(h@));
    } else {
        assert(hs.push(h)[0] == hs[0]);
        assert(hs.push(h).skip(1) =~= hs.skip(1).push(h));
        lemma_msum_push(hs.skip(1), h);
        assert(msum(hs.push(h)) == hs[0]@.add(msum(hs.skip(1).push(h))));
        assert(msum(hs) == hs[0]@.add(msum(hs.skip(1))));
        assert(msum(hs.push(h)) =~= msum(hs).add(h@));
    }
}

/// When each heap holds exactly the matching element of `s`, their union is
/// the multiset of `s`.
proof fn lemma_msum_to_multiset(hs: Seq<LeftHeap>, s: Seq<i64>)
    requires
        hs.len() == s.len(),
        forall|k: int| 0 <= k < hs.len() ==> (#[trigger] hs[k])@ == Multiset::singleton(s[k]),
    ensures
        msum(hs) == s.to_multiset(),
    decreases hs.len(),
{
    broadcast use vstd::multiset::group_multiset_axioms;
    broadcast use vstd::seq_lib::group_to_multiset_ensures;

    if hs.len() == 0 {
        assert(s.to_multiset() =~= Multiset::empty());
    } else {
        let n = hs.len() - 1;
        lemma_msum_to_multiset(hs.take(n), s.take(n));
        assert(hs.take(n).push(hs[n]) =~= hs);
        lemma_msum_push(hs.take(n), hs[n]);
        assert(s.take(n).push(s[n]) =~= s);
        assert(s.take(n).push(s[n]).to_multiset() =~= s.take(n).to_multiset().insert(s[n]));
        assert(msum(hs) =~= s.to_multiset());
    }
}

} // verus!
