//! Persistent unbalanced binary search tree.
//!
//! The baseline the red-black tree improves on. Lookup and insert carry the
//! last value known to be at most the key down the search path, so each level
//! costs one comparison instead of two, and membership is resolved at the
//! leaf against that carried value. Inserting a value that is already present
//! returns no new tree at all: the original handle is reused unchanged.

use std::rc::Rc;
use vstd::prelude::*;

verus! {

broadcast use vstd::set::group_set_axioms;

enum Tree {
    Leaf,
    Knot(i64, Rc<Tree>, Rc<Tree>),
}

impl Tree {
    /// The set of values in the tree.
    spec fn elems(self) -> Set<i64>
        decreases self,
    {
        match self {
            Tree::Leaf => Set::empty(),
            Tree::Knot(v, l, r) => (*l).elems().union((*r).elems()).insert(v),
        }
    }

    /// The search-tree order: strictly smaller values on the left, strictly
    /// larger ones on the right.
    spec fn wf(self) -> bool
        decreases self,
    {
        match self {
            Tree::Leaf => true,
            Tree::Knot(v, l, r) => {
                &&& forall|y: i64| (*l).elems().contains(y) ==> y < v
                &&& forall|y: i64| (*r).elems().contains(y) ==> y > v
                &&& (*l).wf()
                &&& (*r).wf()
            },
        }
    }
}

impl Clone for Tree {
    /// Cloning copies one node; children are shared.
    fn clone(&self) -> (r: Self)
        ensures
            r == *self,
    {
        match self {
            Tree::Leaf => Tree::Leaf,
            Tree::Knot(v, l, r) => Tree::Knot(*v, Rc::clone(l), Rc::clone(r)),
        }
    }
}

/// Membership along the search path, carrying in `memo` the largest value
/// seen that is known to be at most `v`; only the leaf compares against it.
fn tree_member(t: &Tree, v: i64, memo: Option<i64>) -> (r: bool)
    requires
        t.wf(),
        memo matches Some(m) ==> (m <= v && forall|y: i64| t.elems().contains(y) ==> y > m),
    ensures
        r == (t.elems().contains(v) || memo == Some(v)),
    decreases *t,
{
    match t {
        Tree::Leaf => {
            match memo {
                // The carried value is known to be at most v, so it equals v
                // exactly when it is not below it.
                Some(m) => !(m < v),
                None => false,
            }
        },
        Tree::Knot(x, l, r) => {
            if v < *x {
                proof {
                    match memo {
                        Some(m) => {
                            assert forall|y: i64| (*l).elems().contains(y) implies y > m by {
                                assert(t.elems().contains(y));
                            }
                        },
                        None => {},
                    }
                }
                let res = tree_member(l, v, memo);
                proof {
                    assert(!(*r).elems().contains(v));
                }
                res
            } else {
                let res = tree_member(r, v, Some(*x));
                proof {
                    assert(!(*l).elems().contains(v));
                    match memo {
                        Some(m) => {
                            assert(t.elems().contains(*x));
                        },
                        None => {},
                    }
                }
                res
            }
        },
    }
}

/// Insert along the search path, carrying `memo` as in [`tree_member`];
/// returns `None`, and allocates nothing, when `v` is already present.
fn tree_insert(t: &Tree, v: i64, memo: Option<i64>) -> (res: Option<Tree>)
    requires
        t.wf(),
        memo matches Some(m) ==> (m <= v && forall|y: i64| t.elems().contains(y) ==> y > m),
    ensures
        res is None <==> (t.elems().contains(v) || memo == Some(v)),
        res matches Some(t2) ==> t2.wf() && t2.elems() == t.elems().insert(v),
    decreases *t,
{
    match t {
        Tree::Leaf => {
            if let Some(m) = memo {
                if !(m < v) {
                    return None;
                }
            }
            let t2 = Tree::Knot(v, Rc::new(Tree::Leaf), Rc::new(Tree::Leaf));
            proof {
                assert(t2.elems() =~= t.elems().insert(v));
            }
            Some(t2)
        },
        Tree::Knot(x, l, r) => {
            if v < *x {
                proof {
                    match memo {
                        Some(m) => {
                            assert forall|y: i64| (*l).elems().contains(y) implies y > m by {
                                assert(t.elems().contains(y));
                            }
                        },
                        None => {},
                    }
                    assert(!(*r).elems().contains(v));
                }
                match tree_insert(l, v, memo) {
                    None => None,
                    Some(l2) => {
                        let t2 = Tree::Knot(*x, Rc::new(l2), Rc::clone(r));
                        proof {
                            assert(t2.elems() =~= t.elems().insert(v));
                        }
                        Some(t2)
                    },
                }
            } else {
                proof {
                    assert(!(*l).elems().contains(v));
                    match memo {
                        Some(m) => {
                            assert(t.elems().contains(*x));
                        },
                        None => {},
                    }
                }
                match tree_insert(r, v, Some(*x)) {
                    None => None,
                    Some(r2) => {
                        let t2 = Tree::Knot(*x, Rc::clone(l), Rc::new(r2));
                        proof {
                            assert(t2.elems() =~= t.elems().insert(v));
                        }
                        Some(t2)
                    },
                }
            }
        },
    }
}

/// A persistent unbalanced binary search tree of values.
///
/// The abstract value is the set of stored values; duplicates are never kept.
pub struct BinTree {
    root: Tree,
}

impl View for BinTree {
    type V = Set<i64>;

    closed spec fn view(&self) -> Set<i64> {
        self.root.elems()
    }
}

impl BinTree {
    #[verifier::type_invariant]
    spec fn inv(self) -> bool {
        self.root.wf()
    }
}

impl Clone for BinTree {
    /// Cloning copies the root node; the whole structure is shared.
    fn clone(&self) -> (t: Self)
        ensures
            t == *self,
    {
        proof {
            use_type_invariant(self);
        }
        BinTree { root: self.root.clone() }
    }
}

impl BinTree {
    /// The tree holding every element of the slice, by inserting from the
    /// last element to the first.
    pub fn from_array(arr: &[i64]) -> (t: Self)
        ensures
            t@ == arr@.to_set(),
    {
        let mut t = BinTree { root: Tree::Leaf };
        proof {
            assert(t@ =~= arr@.skip(arr@.len() as int).to_set());
        }
        let mut i: usize = arr.len();
        while i > 0
            invariant
                i <= arr@.len(),
                t@ == arr@.skip(i as int).to_set(),
            decreases i,
        {
            i = i - 1;
            let t2 = t.insert(arr[i]);
            proof {
                broadcast use vstd::seq_lib::group_seq_properties;

                assert(arr@.skip(i as int) =~= seq![arr@[i as int]] + arr@.skip(i as int + 1));
                assert(seq![arr@[i as int]][0] == arr@[i as int]);
                assert((seq![arr@[i as int]] + arr@.skip(i as int + 1)).to_set() =~= arr@.skip(
                    i as int + 1,
                ).to_set().insert(arr@[i as int]));
            }
            t = t2;
        }
        proof {
            assert(arr@.skip(0) =~= arr@);
        }
        t
    }

    /// Membership with one comparison per level: the descent carries in
    /// `memo` the last value known to be at most `v`, and the leaf resolves
    /// against it. `member` starts the descent with no carried value.
    pub fn member_impl(&self, v: i64, memo: Option<i64>) -> (r: bool)
        requires
            memo matches Some(m) ==> (m <= v && forall|y: i64| self@.contains(y) ==> y > m),
        ensures
            r == (self@.contains(v) || memo == Some(v)),
    {
        proof {
            use_type_invariant(self);
            match memo {
                Some(m) => {
                    assert forall|y: i64| self.root.elems().contains(y) implies y > m by {
                        assert(self@.contains(y));
                    }
                },
                None => {},
            }
        }
        tree_member(&self.root, v, memo)
    }

    /// Whether `v` is in the tree.
    pub fn member(&self, v: i64) -> (r: bool)
        ensures
            r == self@.contains(v),
    {
        self.member_impl(v, None)
    }

    /// Insert along the search path, reusing the whole original tree when `v`
    /// is already present: `None` then means "no new allocation needed".
    pub fn insert_impl(&self, v: i64, memo: Option<i64>) -> (res: Option<Self>)
        requires
            memo matches Some(m) ==> (m <= v && forall|y: i64| self@.contains(y) ==> y > m),
        ensures
            res is None <==> (self@.contains(v) || memo == Some(v)),
            res matches Some(t2) ==> t2@ == self@.insert(v),
    {
        proof {
            use_type_invariant(self);
            match memo {
                Some(m) => {
                    assert forall|y: i64| self.root.elems().contains(y) implies y > m by {
                        assert(self@.contains(y));
                    }
                },
                None => {},
            }
        }
        match tree_insert(&self.root, v, memo) {
            None => None,
            Some(root) => Some(BinTree { root }),
        }
    }

    /// The tree with `v` added; when `v` is already present the original
    /// handle is returned unchanged, with no new allocation.
    pub fn insert(self, v: i64) -> (t: Self)
        ensures
            t@ == self@.insert(v),
    {
        proof {
            use_type_invariant(&self);
        }
        match self.insert_impl(v, None) {
            Some(t) => t,
            None => {
                proof {
                    assert(self@ =~= self@.insert(v));
                }
                self
            },
        }
    }
}

} // verus!
