//! Persistent binomial heap, and a variant with an O(1) find-min.
//!
//! A heap is a forest of binomial trees kept in strictly increasing rank
//! order, at most one tree per rank. Ranks are not stored anywhere: the rank
//! of a tree is the number of children of its root, and ranks are compared by
//! walking two child lists side by side, so no counter is ever materialized.
//! A tree of rank `r` has children of ranks `r-1, r-2, …, 0`, most recently
//! linked first, and its root is at most every value below it.

use std::rc::Rc;
use vstd::multiset::Multiset;
use vstd::prelude::*;

use crate::Error;
use crate::order::{le_all, lemma_is_min_unique, lemma_min_of, min_of};

verus! {

broadcast use vstd::multiset::group_multiset_axioms;

/// One node of a binomial tree: a value and the list of child trees.
struct TreeNode {
    val: i64,
    children: NodeList,
}

/// A persistent list of trees; used both for the children of a node and for
/// the forest of a heap.
enum NodeList {
    Nil,
    Cons(Rc<TreeNode>, Rc<NodeList>),
}

impl TreeNode {
    /// The multiset of values in the tree rooted here.
    spec fn mset(self) -> Multiset<i64>
        decreases self,
    {
        Multiset::singleton(self.val).add(self.children.mset())
    }

    /// The rank of the tree rooted here: the number of children of its root.
    spec fn rank(self) -> nat {
        self.children.len()
    }

    /// Heap order, and the binomial shape: the children have ranks
    /// `rank - 1, …, 0`, most recently linked first.
    spec fn wf(self) -> bool
        decreases self,
    {
        &&& le_all(self.val, self.children.mset())
        &&& self.children.children_wf()
    }
}

impl NodeList {
    /// The union of the values of all trees in the list.
    spec fn mset(self) -> Multiset<i64>
        decreases self,
    {
        match self {
            NodeList::Nil => Multiset::empty(),
            NodeList::Cons(t, rest) => (*t).mset().add((*rest).mset()),
        }
    }

    /// The number of trees in the list.
    spec fn len(self) -> nat
        decreases self,
    {
        match self {
            NodeList::Nil => 0,
            NodeList::Cons(_, rest) => 1 + (*rest).len(),
        }
    }

    /// As a child list: each tree is well formed and has exactly as many
    /// children as there are trees after it, so ranks descend to zero.
    spec fn children_wf(self) -> bool
        decreases self,
    {
        match self {
            NodeList::Nil => true,
            NodeList::Cons(t, rest) => {
                &&& (*t).rank() == (*rest).len()
                &&& (*t).wf()
                &&& (*rest).children_wf()
            },
        }
    }

    /// The first tree, if any, has rank at least `r`.
    spec fn first_rank_ge(self, r: nat) -> bool {
        match self {
            NodeList::Nil => true,
            NodeList::Cons(t, _) => (*t).rank() >= r,
        }
    }

    /// As a forest: each tree is well formed and ranks strictly increase.
    spec fn forest_wf(self) -> bool
        decreases self,
    {
        match self {
            NodeList::Nil => true,
            NodeList::Cons(t, rest) => {
                &&& (*t).wf()
                &&& (*rest).first_rank_ge((*t).rank() + 1)
                &&& (*rest).forest_wf()
            },
        }
    }
}

impl Clone for NodeList {
    /// Cloning copies one handle per list cell that is cloned eagerly; here
    /// only the head cell is rebuilt and everything else is shared.
    fn clone(&self) -> (r: Self)
        ensures
            r == *self,
    {
        match self {
            NodeList::Nil => NodeList::Nil,
            NodeList::Cons(t, rest) => NodeList::Cons(Rc::clone(t), Rc::clone(rest)),
        }
    }
}

/// The root of a well-formed tree is at most every value in the tree.
proof fn lemma_node_root_min(n: &TreeNode)
    requires
        n.wf(),
    ensures
        le_all(n.val, n.mset()),
        n.mset().count(n.val) > 0,
{
}

/// Whether the first list is strictly shorter than the second, by walking
/// both side by side; no count is ever computed.
fn len_lt(a: &NodeList, b: &NodeList) -> (r: bool)
    ensures
        r <==> a.len() < b.len(),
    decreases *a,
{
    match (a, b) {
        (_, NodeList::Nil) => false,
        (NodeList::Nil, NodeList::Cons(_, _)) => true,
        (NodeList::Cons(_, ra), NodeList::Cons(_, rb)) => len_lt(ra, rb),
    }
}

/// The tree with `extra` attached below the root of `n` as its newest child.
fn cons_child(n: &TreeNode, extra: &Rc<TreeNode>) -> (r: TreeNode)
    ensures
        r.val == n.val,
        r.children.len() == n.children.len() + 1,
        r.children.mset() == (**extra).mset().add(n.children.mset()),
        ((**extra).wf() && (**extra).rank() == n.children.len() && n.children.children_wf())
            ==> r.children.children_wf(),
{
    TreeNode { val: n.val, children: NodeList::Cons(Rc::clone(extra), Rc::new(n.children.clone())) }
}

/// Link two trees of equal rank: the smaller root becomes the parent and the
/// other tree its newest child, giving one tree of the next rank.
///
/// Linking trees of unequal rank is the `RankMismatch` programming error; the
/// precondition rules it out, and every caller is proven to respect it.
fn link(t1: &Rc<TreeNode>, t2: &Rc<TreeNode>) -> (r: Rc<TreeNode>)
    requires
        (**t1).wf(),
        (**t2).wf(),
        (**t1).rank() == (**t2).rank(),
    ensures
        (*r).wf(),
        (*r).rank() == (**t1).rank() + 1,
        (*r).mset() == (**t1).mset().add((**t2).mset()),
{
    proof {
        lemma_node_root_min(&**t1);
        lemma_node_root_min(&**t2);
    }
    let r = if t1.val <= t2.val {
        cons_child(t1, t2)
    } else {
        cons_child(t2, t1)
    };
    proof {
        assert(r.mset() =~= (**t1).mset().add((**t2).mset()));
    }
    Rc::new(r)
}

/// Insert a tree into a forest whose ranks all are at least the tree's rank:
/// cons it on when its rank is strictly smallest, otherwise link it with the
/// equal-rank head and carry the result rightwards, like adding 1 to a binary
/// number.
fn insert_tree(t: Rc<TreeNode>, ts: &NodeList) -> (res: NodeList)
    requires
        (*t).wf(),
        ts.forest_wf(),
        ts.first_rank_ge((*t).rank()),
    ensures
        res.forest_wf(),
        res.mset() == (*t).mset().add(ts.mset()),
        forall|r: nat| r <= (*t).rank() && ts.first_rank_ge(r) ==> #[trigger] res.first_rank_ge(r),
    decreases *ts,
{
    match ts {
        NodeList::Nil => {
            let res = NodeList::Cons(t, Rc::new(NodeList::Nil));
            proof {
                assert(res.mset() =~= (*t).mset().add(ts.mset()));
            }
            res
        },
        NodeList::Cons(t2, ts2) => {
            if len_lt(&t.children, &t2.children) {
                let ghost gt = t;
                let res = NodeList::Cons(t, Rc::new(ts.clone()));
                proof {
                    assert(res.mset() =~= (*gt).mset().add(ts.mset()));
                }
                res
            } else {
                let linked = link(&t, t2);
                let ghost gt = t;
                let res = insert_tree(linked, ts2);
                proof {
                    assert(res.mset() =~= (*gt).mset().add(ts.mset()));
                }
                res
            }
        },
    }
}

/// Merge two rank-ordered forests the way two sorted lists are merged,
/// linking whenever both fronts have the same rank.
fn merge_trees(ts1: &NodeList, ts2: &NodeList) -> (res: NodeList)
    requires
        ts1.forest_wf(),
        ts2.forest_wf(),
    ensures
        res.forest_wf(),
        res.mset() == ts1.mset().add(ts2.mset()),
        forall|r: nat|
            ts1.first_rank_ge(r) && ts2.first_rank_ge(r) ==> #[trigger] res.first_rank_ge(r),
    decreases *ts1, *ts2,
{
    match (ts1, ts2) {
        (NodeList::Nil, _) => {
            let res = ts2.clone();
            proof {
                assert(res.mset() =~= ts1.mset().add(ts2.mset()));
            }
            res
        },
        (_, NodeList::Nil) => {
            let res = ts1.clone();
            proof {
                assert(res.mset() =~= ts1.mset().add(ts2.mset()));
            }
            res
        },
        (NodeList::Cons(x1, xs1), NodeList::Cons(x2, xs2)) => {
            if len_lt(&x1.children, &x2.children) {
                let rec = merge_trees(xs1, ts2);
                let res = NodeList::Cons(Rc::clone(x1), Rc::new(rec));
                proof {
                    assert(res.mset() =~= ts1.mset().add(ts2.mset()));
                }
                res
            } else if len_lt(&x2.children, &x1.children) {
                let rec = merge_trees(ts1, xs2);
                let res = NodeList::Cons(Rc::clone(x2), Rc::new(rec));
                proof {
                    assert(res.mset() =~= ts1.mset().add(ts2.mset()));
                }
                res
            } else {
                let linked = link(x1, x2);
                let rec = merge_trees(xs1, xs2);
                let res = insert_tree(linked, &rec);
                proof {
                    assert(res.mset() =~= ts1.mset().add(ts2.mset()));
                }
                res
            }
        },
    }
}

/// The tree in the forest whose root is smallest; the forest must be
/// non-empty.
fn find_min_root(trees: &NodeList) -> (res: &TreeNode)
    requires
        trees.forest_wf(),
        *trees is Cons,
    ensures
        trees.mset().count(res.val) > 0,
        le_all(res.val, trees.mset()),
    decreases *trees,
{
    match trees {
        NodeList::Nil => vstd::pervasive::unreached(),
        NodeList::Cons(t, ts) => {
            proof {
                lemma_node_root_min(&**t);
            }
            match &**ts {
                NodeList::Nil => {
                    proof {
                        assert((**ts).mset() =~= Multiset::<i64>::empty());
                    }
                    &**t
                },
                NodeList::Cons(_, _) => {
                    let t2 = find_min_root(ts);
                    if t.val <= t2.val {
                        &**t
                    } else {
                        t2
                    }
                },
            }
        },
    }
}

/// Split the forest into the tree with the smallest root and the remaining
/// forest, preserving the rank order of the remainder.
fn remove_min_root(trees: &NodeList) -> (res: (Rc<TreeNode>, NodeList))
    requires
        trees.forest_wf(),
        *trees is Cons,
    ensures
        (*res.0).wf(),
        res.1.forest_wf(),
        (*res.0).mset().add(res.1.mset()) == trees.mset(),
        le_all((*res.0).val, trees.mset()),
        forall|r: nat| trees.first_rank_ge(r) ==> #[trigger] res.1.first_rank_ge(r),
    decreases *trees,
{
    match trees {
        NodeList::Nil => vstd::pervasive::unreached(),
        NodeList::Cons(t, ts) => {
            proof {
                lemma_node_root_min(&**t);
            }
            match &**ts {
                NodeList::Nil => {
                    let res = (Rc::clone(t), NodeList::Nil);
                    proof {
                        assert((*res.0).mset().add(res.1.mset()) =~= trees.mset());
                    }
                    res
                },
                NodeList::Cons(_, _) => {
                    let (t2, ts2) = remove_min_root(ts);
                    if t.val <= t2.val {
                        let res = (Rc::clone(t), (**ts).clone());
                        proof {
                            assert((*res.0).mset().add(res.1.mset()) =~= trees.mset());
                        }
                        res
                    } else {
                        let res = (t2, NodeList::Cons(Rc::clone(t), Rc::new(ts2)));
                        proof {
                            assert((*res.0).mset().add(res.1.mset()) =~= trees.mset());
                        }
                        res
                    }
                },
            }
        },
    }
}

/// Promote the children of a removed root to a forest of their own: the
/// children are stored newest (highest rank) first, so reversing them yields
/// a strictly rank-increasing forest.
fn rev_children(l: &NodeList, acc: NodeList) -> (res: NodeList)
    requires
        l.children_wf(),
        acc.forest_wf(),
        acc is Cons ==> acc.first_rank_ge(l.len()),
    ensures
        res.forest_wf(),
        res.mset() == l.mset().add(acc.mset()),
    decreases *l,
{
    match l {
        NodeList::Nil => {
            proof {
                assert(acc.mset() =~= l.mset().add(acc.mset()));
            }
            acc
        },
        NodeList::Cons(t, rest) => {
            let acc2 = NodeList::Cons(Rc::clone(t), Rc::new(acc));
            let res = rev_children(rest, acc2);
            proof {
                assert(res.mset() =~= l.mset().add(acc.mset()));
            }
            res
        },
    }
}

/// A persistent binomial heap of values.
///
/// The abstract value is the multiset of the stored values.
pub struct BinHeap {
    trees: NodeList,
}

impl View for BinHeap {
    type V = Multiset<i64>;

    closed spec fn view(&self) -> Multiset<i64> {
        self.trees.mset()
    }
}

impl BinHeap {
    #[verifier::type_invariant]
    spec fn inv(self) -> bool {
        self.trees.forest_wf()
    }
}

impl Clone for BinHeap {
    /// Cloning a heap copies the handle of the first forest cell; the whole
    /// structure is shared.
    fn clone(&self) -> (h: Self)
        ensures
            h == *self,
    {
        proof {
            use_type_invariant(self);
        }
        BinHeap { trees: self.trees.clone() }
    }
}

fn heap(trees: NodeList) -> (h: BinHeap)
    requires
        trees.forest_wf(),
    ensures
        h@ == trees.mset(),
{
    BinHeap { trees }
}

impl BinHeap {
    /// The empty heap.
    pub fn empty() -> (h: Self)
        ensures
            h@ == Multiset::<i64>::empty(),
    {
        heap(NodeList::Nil)
    }

    /// Whether the heap holds no element.
    pub fn is_empty(&self) -> (r: bool)
        ensures
            r <==> self@.len() == 0,
    {
        proof {
            use_type_invariant(self);
        }
        match &self.trees {
            NodeList::Nil => true,
            NodeList::Cons(t, _) => {
                proof {
                    lemma_node_root_min(&**t);
                }
                false
            },
        }
    }

    /// The heap with one more instance of `v`. A single insert can cascade
    /// through a row of links, but over any sequence of inserts each one
    /// costs amortized O(1).
    pub fn insert(&self, v: i64) -> (h: Self)
        ensures
            h@ == self@.insert(v),
    {
        proof {
            use_type_invariant(self);
        }
        let t = Rc::new(TreeNode { val: v, children: NodeList::Nil });
        proof {
            assert((*t).wf());
        }
        let trees = insert_tree(t, &self.trees);
        proof {
            assert(trees.mset() =~= self@.insert(v));
        }
        heap(trees)
    }

    /// The heap holding every element of `self` and every element of
    /// `other`; both inputs stay valid. One merge is O(log n) worst case — a
    /// one-shot merge has no amortized cascade bound, unlike `insert`.
    pub fn merge(&self, other: &Self) -> (h: Self)
        ensures
            h@ == self@.add(other@),
    {
        proof {
            use_type_invariant(self);
            use_type_invariant(other);
        }
        heap(merge_trees(&self.trees, &other.trees))
    }

    /// The least element, or `EmptyCollection` on the empty heap; found by
    /// one scan over the tree roots.
    pub fn find_min(&self) -> (r: Result<i64, Error>)
        ensures
            self@.len() > 0 ==> (r matches Ok(m) && m == min_of(self@)),
            self@.len() == 0 ==> (r matches Err(e) && e == Error::EmptyCollection),
    {
        proof {
            use_type_invariant(self);
        }
        match &self.trees {
            NodeList::Nil => Err(Error::EmptyCollection),
            NodeList::Cons(_, _) => {
                let t = find_min_root(&self.trees);
                proof {
                    lemma_is_min_unique(t.val, self@);
                }
                Ok(t.val)
            },
        }
    }

    /// The heap without one instance of its least element, or
    /// `EmptyCollection` on the empty heap: the minimum tree leaves the
    /// forest and its children, reversed into rank order, are merged back
    /// with the remainder.
    pub fn delete_min(&self) -> (r: Result<Self, Error>)
        ensures
            self@.len() > 0 ==> (r matches Ok(h) && h@ == self@.remove(min_of(self@))),
            self@.len() == 0 ==> (r matches Err(e) && e == Error::EmptyCollection),
    {
        proof {
            use_type_invariant(self);
        }
        match &self.trees {
            NodeList::Nil => Err(Error::EmptyCollection),
            NodeList::Cons(_, _) => {
                let (t, rest) = remove_min_root(&self.trees);
                let promoted = rev_children(&t.children, NodeList::Nil);
                let trees = merge_trees(&rest, &promoted);
                let h = heap(trees);
                proof {
                    lemma_is_min_unique((*t).val, self@);
                    assert(h@ =~= self@.remove(min_of(self@)));
                }
                Ok(h)
            },
        }
    }
}

/// A binomial heap that caches its minimum outside the forest, making
/// find-min O(1).
///
/// The cache is `None` exactly when the heap is empty; otherwise it holds the
/// least element, which is never also stored inside the nested heap.
pub struct BinHeap2 {
    min: Option<i64>,
    rest: BinHeap,
}

impl View for BinHeap2 {
    type V = Multiset<i64>;

    closed spec fn view(&self) -> Multiset<i64> {
        match self.min {
            Option::None => Multiset::empty(),
            Option::Some(m) => self.rest@.insert(m),
        }
    }
}

impl BinHeap2 {
    #[verifier::type_invariant]
    spec fn inv(self) -> bool {
        match self.min {
            Option::None => self.rest@.len() == 0,
            Option::Some(m) => le_all(m, self.rest@),
        }
    }
}

impl Clone for BinHeap2 {
    /// Cloning copies the cached minimum and one forest handle; the whole
    /// structure is shared.
    fn clone(&self) -> (h: Self)
        ensures
            h == *self,
    {
        proof {
            use_type_invariant(self);
        }
        BinHeap2 { min: self.min, rest: self.rest.clone() }
    }
}

impl BinHeap2 {
    /// The empty heap.
    pub fn empty() -> (h: Self)
        ensures
            h@ == Multiset::<i64>::empty(),
    {
        BinHeap2 { min: None, rest: BinHeap::empty() }
    }

    /// Whether the heap holds no element; O(1) through the cache.
    pub fn is_empty(&self) -> (r: bool)
        ensures
            r <==> self@.len() == 0,
    {
        proof {
            use_type_invariant(self);
        }
        self.min.is_none()
    }

    /// The heap with one more instance of `v`: the new value is compared
    /// against the cache, and the larger of the two goes into the forest.
    pub fn insert(&self, v: i64) -> (h: Self)
        ensures
            h@ == self@.insert(v),
    {
        proof {
            use_type_invariant(self);
        }
        let h = match &self.min {
            None => BinHeap2 { min: Some(v), rest: self.rest.clone() },
            Some(m) => {
                if v < *m {
                    BinHeap2 { min: Some(v), rest: self.rest.insert(*m) }
                } else {
                    BinHeap2 { min: Some(*m), rest: self.rest.insert(v) }
                }
            },
        };
        proof {
            assert(h@ =~= self@.insert(v));
        }
        h
    }

    /// The heap holding every element of `self` and every element of
    /// `other`: the smaller cache survives, the other cache's value joins
    /// the merged forest.
    pub fn merge(&self, other: &Self) -> (h: Self)
        ensures
            h@ == self@.add(other@),
    {
        proof {
            use_type_invariant(self);
            use_type_invariant(other);
        }
        let h = match (&self.min, &other.min) {
            (None, _) => other.clone(),
            (_, None) => self.clone(),
            (Some(a), Some(b)) => {
                if *a < *b {
                    BinHeap2 { min: Some(*a), rest: self.rest.merge(&other.rest).insert(*b) }
                } else {
                    BinHeap2 { min: Some(*b), rest: other.rest.merge(&self.rest).insert(*a) }
                }
            },
        };
        proof {
            assert(h@ =~= self@.add(other@));
        }
        h
    }

    /// The least element, straight from the cache, or `EmptyCollection` on
    /// the empty heap.
    pub fn find_min(&self) -> (r: Result<i64, Error>)
        ensures
            self@.len() > 0 ==> (r matches Ok(m) && m == min_of(self@)),
            self@.len() == 0 ==> (r matches Err(e) && e == Error::EmptyCollection),
    {
        proof {
            use_type_invariant(self);
        }
        match &self.min {
            None => Err(Error::EmptyCollection),
            Some(m) => {
                proof {
                    lemma_is_min_unique(*m, self@);
                }
                Ok(*m)
            },
        }
    }

    /// The heap without one instance of its least element, or
    /// `EmptyCollection` on the empty heap; the new cache is re-derived from
    /// the nested heap's minimum.
    pub fn delete_min(&self) -> (r: Result<Self, Error>)
        ensures
            self@.len() > 0 ==> (r matches Ok(h) && h@ == self@.remove(min_of(self@))),
            self@.len() == 0 ==> (r matches Err(e) && e == Error::EmptyCollection),
    {
        proof {
            use_type_invariant(self);
        }
        match &self.min {
            None => Err(Error::EmptyCollection),
            Some(m) => {
                proof {
                    lemma_is_min_unique(*m, self@);
                }
                if self.rest.is_empty() {
                    let h = BinHeap2::empty();
                    proof {
                        assert(h@ =~= self@.remove(min_of(self@)));
                    }
                    Ok(h)
                } else {
                    let new_min = match self.rest.find_min() {
                        Ok(v) => v,
                        Err(_) => vstd::pervasive::unreached(),
                    };
                    let rest2 = match self.rest.delete_min() {
                        Ok(h2) => h2,
                        Err(_) => vstd::pervasive::unreached(),
                    };
                    proof {
                        lemma_min_of(self.rest@);
                    }
                    let h = BinHeap2 { min: Some(new_min), rest: rest2 };
                    proof {
                        assert(h@ =~= self@.remove(min_of(self@)));
                    }
                    Ok(h)
                }
            },
        }
    }
}

} // verus!
