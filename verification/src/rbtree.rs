//! Persistent red-black tree.
//!
//! The tree keeps three invariants at every construction, enforced as the
//! type invariant: no red node has a red child; every path from the root to a
//! leaf passes the same number of black nodes; and values are in strict
//! search-tree order with no duplicates. Insertion descends, rebuilds the
//! spine, and repairs the four red-red shapes in `balance` on the way back
//! up; the root is forced black at the end. Inserting a value that is already
//! present returns the original subtree unchanged.

use std::rc::Rc;
use vstd::prelude::*;

verus! {

broadcast use vstd::set::group_set_axioms;

#[derive(Clone, Copy, PartialEq, Eq, Structural)]
enum Color {
    Red,
    Black,
}

enum Node {
    // A leaf is always black.
    Leaf,
    Knot { color: Color, left: Rc<Node>, right: Rc<Node>, val: i64 },
}

impl Node {
    /// The set of values in the tree.
    spec fn elems(self) -> Set<i64>
        decreases self,
    {
        match self {
            Node::Leaf => Set::empty(),
            Node::Knot { color, left, right, val } => (*left).elems().union(
                (*right).elems(),
            ).insert(val),
        }
    }

    /// Strict search-tree order.
    spec fn bst(self) -> bool
        decreases self,
    {
        match self {
            Node::Leaf => true,
            Node::Knot { color, left, right, val } => {
                &&& forall|y: i64| (*left).elems().contains(y) ==> y < val
                &&& forall|y: i64| (*right).elems().contains(y) ==> y > val
                &&& (*left).bst()
                &&& (*right).bst()
            },
        }
    }

    /// The number of black nodes on the leftmost path; with [`Self::balanced`]
    /// this is the number of black nodes on every path.
    spec fn black_height(self) -> nat
        decreases self,
    {
        match self {
            Node::Leaf => 0,
            Node::Knot { color, left, right, val } => (*left).black_height() + (
            if color == Color::Black {
                1nat
            } else {
                0nat
            }),
        }
    }

    /// Every node's two subtrees carry the same number of black nodes on each
    /// of their paths.
    spec fn balanced(self) -> bool
        decreases self,
    {
        match self {
            Node::Leaf => true,
            Node::Knot { color, left, right, val } => {
                &&& (*left).black_height() == (*right).black_height()
                &&& (*left).balanced()
                &&& (*right).balanced()
            },
        }
    }

    /// The root is not red (a leaf counts as black).
    spec fn root_black(self) -> bool {
        match self {
            Node::Leaf => true,
            Node::Knot { color, left, right, val } => color == Color::Black,
        }
    }

    /// No red node has a red child.
    spec fn no_red_red(self) -> bool
        decreases self,
    {
        match self {
            Node::Leaf => true,
            Node::Knot { color, left, right, val } => {
                &&& (color == Color::Red ==> (*left).root_black() && (*right).root_black())
                &&& (*left).no_red_red()
                &&& (*right).no_red_red()
            },
        }
    }

    /// Red-red violations, if any, involve the root only: both subtrees are
    /// internally clean.
    spec fn almost_no_red_red(self) -> bool {
        match self {
            Node::Leaf => true,
            Node::Knot { color, left, right, val } => (*left).no_red_red()
                && (*right).no_red_red(),
        }
    }

    /// Full well-formedness: a valid red-black tree.
    spec fn wf(self) -> bool {
        self.bst() && self.balanced() && self.no_red_red()
    }
}

/// A tree with no red-red violation anywhere has none below its root either.
proof fn lemma_nrr_almost(n: &Node)
    requires
        n.no_red_red(),
    ensures
        n.almost_no_red_red(),
{
}

fn black(left: Rc<Node>, right: Rc<Node>, val: i64) -> (res: Rc<Node>)
    ensures
        *res == (Node::Knot { color: Color::Black, left, right, val }),
{
    Rc::new(Node::Knot { color: Color::Black, left, right, val })
}

fn red(left: Rc<Node>, right: Rc<Node>, val: i64) -> (res: Rc<Node>)
    ensures
        *res == (Node::Knot { color: Color::Red, left, right, val }),
{
    Rc::new(Node::Knot { color: Color::Red, left, right, val })
}

/// Membership by the usual two-way descent.
fn node_member(n: &Node, v: i64) -> (r: bool)
    requires
        n.bst(),
    ensures
        r == n.elems().contains(v),
    decreases *n,
{
    match n {
        Node::Leaf => false,
        Node::Knot { color, left, right, val } => {
            if *val < v {
                let r = node_member(right, v);
                proof {
                    assert(!(*left).elems().contains(v));
                }
                r
            } else if v < *val {
                let r = node_member(left, v);
                proof {
                    assert(!(*right).elems().contains(v));
                }
                r
            } else {
                true
            }
        },
    }
}

/// Rebuild a node after an insertion one level below, repairing the four
/// red-red shapes (left-left, left-right, right-left, right-right) by the
/// corresponding rotation: the new subtree root is painted red and its two
/// children black. A red node is returned unchanged — its violation, if any,
/// is repaired one level further up — and a black node with no violation
/// below it is rebuilt as it stands.
#[verifier::rlimit(100)]
fn balance(color: Color, left: Rc<Node>, right: Rc<Node>, val: i64) -> (res: Rc<Node>)
    requires
        (*left).bst(),
        (*right).bst(),
        forall|y: i64| (*left).elems().contains(y) ==> y < val,
        forall|y: i64| (*right).elems().contains(y) ==> y > val,
        (*left).balanced(),
        (*right).balanced(),
        (*left).black_height() == (*right).black_height(),
        (*left).almost_no_red_red(),
        (*right).almost_no_red_red(),
        (*left).no_red_red() || (*right).no_red_red(),
        color == Color::Red ==> (*left).no_red_red() && (*right).no_red_red(),
    ensures
        (*res).bst(),
        (*res).elems() == (*left).elems().union((*right).elems()).insert(val),
        (*res).balanced(),
        (*res).black_height() == (*left).black_height() + (
        if color == Color::Black {
            1nat
        } else {
            0nat
        }),
        (*res).almost_no_red_red(),
        color == Color::Black ==> (*res).no_red_red(),
        color == Color::Red ==> *res == (Node::Knot { color, left, right, val }),
{
    if color == Color::Red {
        return Rc::new(Node::Knot { color, left, right, val });
    }
    if let Node::Knot { color: Color::Red, left: l1, right: r1, val: v1 } = &*left {
        if let Node::Knot { color: Color::Red, left: l2, right: r2, val: v2 } = &**l1 {
            let res = red(
                black(Rc::clone(l2), Rc::clone(r2), *v2),
                black(Rc::clone(r1), right, val),
                *v1,
            );
            proof {
                assert({
                    &&& (*res).bst()
                    &&& (*res).elems() == (*left).elems().union((*right).elems()).insert(val)
                    &&& (*res).balanced()
                    &&& (*res).black_height() == (*left).black_height() + 1
                    &&& (*res).almost_no_red_red()
                    &&& (*res).no_red_red()
                }) by {
                    reveal_with_fuel(Node::elems, 4);
                    reveal_with_fuel(Node::black_height, 4);
                    reveal_with_fuel(Node::balanced, 4);
                    reveal_with_fuel(Node::bst, 4);
                    reveal_with_fuel(Node::no_red_red, 4);
                    assert((*left).elems().contains(*v1));
                    assert((**l1).elems().contains(*v2));
                    assert forall|y: i64| (**l1).elems().contains(y) implies (*left).elems().contains(
                        y,
                    ) by {}
                    assert forall|y: i64| (**r1).elems().contains(y) implies (*left).elems().contains(
                        y,
                    ) by {}
                    assert forall|y: i64| (**l2).elems().contains(y) implies (*left).elems().contains(
                        y,
                    ) by {
                        assert((**l1).elems().contains(y));
                    }
                    assert forall|y: i64| (**r2).elems().contains(y) implies (*left).elems().contains(
                        y,
                    ) by {
                        assert((**l1).elems().contains(y));
                    }
                    assert((*left).elems() =~= (**l1).elems().union((**r1).elems()).insert(*v1));
                    assert((**l1).elems() =~= (**l2).elems().union((**r2).elems()).insert(*v2));
                    assert((*res).elems() =~= (*left).elems().union((*right).elems()).insert(val));
                };
            }
            return res;
        }
        if let Node::Knot { color: Color::Red, left: l2, right: r2, val: v2 } = &**r1 {
            let res = red(
                black(Rc::clone(l1), Rc::clone(l2), *v1),
                black(Rc::clone(r2), right, val),
                *v2,
            );
            proof {
                assert({
                    &&& (*res).bst()
                    &&& (*res).elems() == (*left).elems().union((*right).elems()).insert(val)
                    &&& (*res).balanced()
                    &&& (*res).black_height() == (*left).black_height() + 1
                    &&& (*res).almost_no_red_red()
                    &&& (*res).no_red_red()
                }) by {
                    reveal_with_fuel(Node::elems, 4);
                    reveal_with_fuel(Node::black_height, 4);
                    reveal_with_fuel(Node::balanced, 4);
                    reveal_with_fuel(Node::bst, 4);
                    reveal_with_fuel(Node::no_red_red, 4);
                    assert((*left).elems().contains(*v1));
                    assert((**r1).elems().contains(*v2));
                    assert forall|y: i64| (**l1).elems().contains(y) implies (*left).elems().contains(
                        y,
                    ) by {}
                    assert forall|y: i64| (**r1).elems().contains(y) implies (*left).elems().contains(
                        y,
                    ) by {}
                    assert forall|y: i64| (**l2).elems().contains(y) implies (*left).elems().contains(
                        y,
                    ) by {
                        assert((**r1).elems().contains(y));
                    }
                    assert forall|y: i64| (**r2).elems().contains(y) implies (*left).elems().contains(
                        y,
                    ) by {
                        assert((**r1).elems().contains(y));
                    }
                    assert((*left).elems() =~= (**l1).elems().union((**r1).elems()).insert(*v1));
                    assert((**r1).elems() =~= (**l2).elems().union((**r2).elems()).insert(*v2));
                    assert((*res).elems() =~= (*left).elems().union((*right).elems()).insert(val));
                    assert((*left).elems().contains(*v2));
                    assert(*v1 < *v2);
                    assert(*v2 < val);
                    assert forall|y: i64| (**l1).elems().contains(y) implies y < *v2 by {}
                    assert forall|y: i64| (**l2).elems().contains(y) implies y < *v2 by {}
                    assert forall|y: i64| (**r2).elems().contains(y) implies y > *v2 by {}
                    assert forall|y: i64| (*right).elems().contains(y) implies y > *v2 by {}
                    assert forall|y: i64| (**l2).elems().contains(y) implies y > *v1 by {
                        assert((**r1).elems().contains(y));
                    }
                    assert forall|y: i64| (**r2).elems().contains(y) implies y < val by {
                        assert((*left).elems().contains(y));
                    }
                    assert((*res).bst());
                    assert((*res).balanced());
                    assert((*res).no_red_red());
                };
            }
            return res;
        }
    }
    if let Node::Knot { color: Color::Red, left: l1, right: r1, val: v1 } = &*right {
        if let Node::Knot { color: Color::Red, left: l2, right: r2, val: v2 } = &**l1 {
            let res = red(
                black(left, Rc::clone(l2), val),
                black(Rc::clone(r2), Rc::clone(r1), *v1),
                *v2,
            );
            proof {
                assert({
                    &&& (*res).bst()
                    &&& (*res).elems() == (*left).elems().union((*right).elems()).insert(val)
                    &&& (*res).balanced()
                    &&& (*res).black_height() == (*left).black_height() + 1
                    &&& (*res).almost_no_red_red()
                    &&& (*res).no_red_red()
                }) by {
                    reveal_with_fuel(Node::elems, 4);
                    reveal_with_fuel(Node::black_height, 4);
                    reveal_with_fuel(Node::balanced, 4);
                    reveal_with_fuel(Node::bst, 4);
                    reveal_with_fuel(Node::no_red_red, 4);
                    assert((*right).elems().contains(*v1));
                    assert((**l1).elems().contains(*v2));
                    assert forall|y: i64| (**l1).elems().contains(y) implies (*right).elems().contains(
                        y,
                    ) by {}
                    assert forall|y: i64| (**r1).elems().contains(y) implies (*right).elems().contains(
                        y,
                    ) by {}
                    assert forall|y: i64| (**l2).elems().contains(y) implies (*right).elems().contains(
                        y,
                    ) by {
                        assert((**l1).elems().contains(y));
                    }
                    assert forall|y: i64| (**r2).elems().contains(y) implies (*right).elems().contains(
                        y,
                    ) by {
                        assert((**l1).elems().contains(y));
                    }
                    assert((*right).elems() =~= (**l1).elems().union((**r1).elems()).insert(*v1));
                    assert((**l1).elems() =~= (**l2).elems().union((**r2).elems()).insert(*v2));
                    assert((*res).elems() =~= (*left).elems().union((*right).elems()).insert(val));
                    assert((*right).elems().contains(*v2));
                    assert(val < *v2);
                    assert(*v2 < *v1);
                    assert forall|y: i64| (*left).elems().contains(y) implies y < *v2 by {}
                    assert forall|y: i64| (**l2).elems().contains(y) implies y < *v2 by {}
                    assert forall|y: i64| (**r2).elems().contains(y) implies y > *v2 by {}
                    assert forall|y: i64| (**r1).elems().contains(y) implies y > *v2 by {}
                    assert forall|y: i64| (**r2).elems().contains(y) implies y < *v1 by {
                        assert((**l1).elems().contains(y));
                    }
                    assert forall|y: i64| (**l2).elems().contains(y) implies y > val by {
                        assert((*right).elems().contains(y));
                    }
                    assert((*res).bst());
                    assert((*res).balanced());
                    assert((*res).no_red_red());
                };
            }
            return res;
        }
        if let Node::Knot { color: Color::Red, left: l2, right: r2, val: v2 } = &**r1 {
            let res = red(
                black(left, Rc::clone(l1), val),
                black(Rc::clone(l2), Rc::clone(r2), *v2),
                *v1,
            );
            proof {
                assert({
                    &&& (*res).bst()
                    &&& (*res).elems() == (*left).elems().union((*right).elems()).insert(val)
                    &&& (*res).balanced()
                    &&& (*res).black_height() == (*left).black_height() + 1
                    &&& (*res).almost_no_red_red()
                    &&& (*res).no_red_red()
                }) by {
                    reveal_with_fuel(Node::elems, 4);
                    reveal_with_fuel(Node::black_height, 4);
                    reveal_with_fuel(Node::balanced, 4);
                    reveal_with_fuel(Node::bst, 4);
                    reveal_with_fuel(Node::no_red_red, 4);
                    assert((*right).elems().contains(*v1));
                    assert((**r1).elems().contains(*v2));
                    assert forall|y: i64| (**l1).elems().contains(y) implies (*right).elems().contains(
                        y,
                    ) by {}
                    assert forall|y: i64| (**r1).elems().contains(y) implies (*right).elems().contains(
                        y,
                    ) by {}
                    assert forall|y: i64| (**l2).elems().contains(y) implies (*right).elems().contains(
                        y,
                    ) by {
                        assert((**r1).elems().contains(y));
                    }
                    assert forall|y: i64| (**r2).elems().contains(y) implies (*right).elems().contains(
                        y,
                    ) by {
                        assert((**r1).elems().contains(y));
                    }
                    assert((*right).elems() =~= (**l1).elems().union((**r1).elems()).insert(*v1));
                    assert((**r1).elems() =~= (**l2).elems().union((**r2).elems()).insert(*v2));
                    assert((*res).elems() =~= (*left).elems().union((*right).elems()).insert(val));
                };
            }
            return res;
        }
    }
    proof {
        reveal_with_fuel(Node::no_red_red, 3);
        match &*left {
            Node::Leaf => {},
            Node::Knot { color: c1, left: l1, right: r1, val: v1 } => {
                if *c1 == Color::Red {
                    // Neither child is red, or a rotation above would have fired.
                    assert((**l1).root_black());
                    assert((**r1).root_black());
                }
            },
        }
        match &*right {
            Node::Leaf => {},
            Node::Knot { color: c1, left: l1, right: r1, val: v1 } => {
                if *c1 == Color::Red {
                    assert((**l1).root_black());
                    assert((**r1).root_black());
                }
            },
        }
        assert((*left).no_red_red());
        assert((*right).no_red_red());
    }
    Rc::new(Node::Knot { color, left, right, val })
}

/// Recursive insert: rebuilds the search path, balancing each rebuilt node.
/// The result may carry a red-red violation at its root when the input root
/// was red; the caller repairs it.
fn ins(link: &Rc<Node>, x: i64) -> (res: Rc<Node>)
    requires
        (**link).wf(),
    ensures
        (*res).elems() == (**link).elems().insert(x),
        (*res).bst(),
        (*res).balanced(),
        (*res).black_height() == (**link).black_height(),
        (*res).almost_no_red_red(),
        (**link).root_black() ==> (*res).no_red_red(),
    decreases **link,
{
    match &**link {
        Node::Leaf => {
            let e = Rc::new(Node::Leaf);
            let res = red(Rc::clone(&e), e, x);
            proof {
                assert((*res).elems() =~= (**link).elems().insert(x));
            }
            res
        },
        Node::Knot { color, left, right, val } => {
            if x < *val {
                let new_left = ins(left, x);
                proof {
                    assert(!(*right).elems().contains(x));
                    lemma_nrr_almost(right);
                }
                let res = balance(*color, new_left, Rc::clone(right), *val);
                proof {
                    assert((*res).elems() =~= (**link).elems().insert(x));
                }
                res
            } else if *val < x {
                let new_right = ins(right, x);
                proof {
                    assert(!(*left).elems().contains(x));
                    lemma_nrr_almost(left);
                }
                let res = balance(*color, Rc::clone(left), new_right, *val);
                proof {
                    assert((*res).elems() =~= (**link).elems().insert(x));
                }
                res
            } else {
                let res = Rc::clone(link);
                proof {
                    assert((*res).elems() =~= (**link).elems().insert(x));
                }
                res
            }
        },
    }
}

/// Powers of two, used to relate a subtree's size to its black height.
spec fn pow2(k: nat) -> nat
    decreases k,
{
    if k == 0 {
        1
    } else {
        2 * pow2((k - 1) as nat)
    }
}

proof fn lemma_pow2_pos(k: nat)
    ensures
        pow2(k) >= 1,
    decreases k,
{
    if k > 0 {
        lemma_pow2_pos((k - 1) as nat);
    }
}

proof fn lemma_pow2_above(k: nat)
    ensures
        pow2(k) >= k + 1,
    decreases k,
{
    if k > 0 {
        lemma_pow2_above((k - 1) as nat);
    }
}

/// Strictly increasing, hence duplicate-free.
pub open spec fn sorted_strict(s: Seq<i64>) -> bool {
    forall|i: int, j: int| 0 <= i < j < s.len() ==> s[i] < s[j]
}

/// The set of a slice segment splits at any inner position.
proof fn lemma_subrange_split_to_set(s: Seq<i64>, lo: int, mid: int, hi: int)
    requires
        0 <= lo <= mid < hi <= s.len(),
    ensures
        s.subrange(lo, hi).to_set() == s.subrange(lo, mid).to_set().union(
            s.subrange(mid + 1, hi).to_set(),
        ).insert(s[mid]),
{
    let target = s.subrange(lo, mid).to_set().union(s.subrange(mid + 1, hi).to_set()).insert(
        s[mid],
    );
    assert forall|y: i64| s.subrange(lo, hi).to_set().contains(y) implies target.contains(y) by {
        let i = choose|i: int| 0 <= i < hi - lo && s.subrange(lo, hi)[i] == y;
        if lo + i < mid {
            assert(s.subrange(lo, mid)[i] == y);
            assert(s.subrange(lo, mid).contains(y));
        } else if lo + i == mid {
            assert(y == s[mid]);
        } else {
            assert(s.subrange(mid + 1, hi)[lo + i - (mid + 1)] == y);
            assert(s.subrange(mid + 1, hi).contains(y));
        }
    }
    assert forall|y: i64| target.contains(y) implies s.subrange(lo, hi).to_set().contains(y) by {
        if s.subrange(lo, mid).to_set().contains(y) {
            let i = choose|i: int| 0 <= i < mid - lo && s.subrange(lo, mid)[i] == y;
            assert(s.subrange(lo, hi)[i] == y);
            assert(s.subrange(lo, hi).contains(y));
        } else if s.subrange(mid + 1, hi).to_set().contains(y) {
            let i = choose|i: int| 0 <= i < hi - (mid + 1) && #[trigger] s.subrange(mid + 1, hi)[i] == y;
            assert(s.subrange(lo, hi)[i + (mid + 1) - lo] == y);
            assert(s.subrange(lo, hi).contains(y));
        } else {
            assert(y == s[mid]);
            assert(s.subrange(lo, hi)[mid - lo] == y);
            assert(s.subrange(lo, hi).contains(y));
        }
    }
    assert(s.subrange(lo, hi).to_set() =~= target);
}

/// Build a tree of black height `k` over the sorted segment `[lo, hi)` in one
/// pass, with no rotation: split at the midpoint, keep the larger half on the
/// left, and colour nodes black except at the very bottom, where a segment of
/// one value and height zero becomes a red node. The size bound `2^k - 1 ≤ n
/// ≤ 2^(k+1) - 1` guarantees both halves support height `k - 1`, so all paths
/// carry the same number of black nodes.
fn link_from_sorted(slice: &[i64], lo: usize, hi: usize, k: usize) -> (res: Rc<Node>)
    requires
        lo <= hi <= slice@.len(),
        sorted_strict(slice@),
        pow2(k as nat) - 1 <= hi - lo <= 2 * pow2(k as nat) - 1,
    ensures
        (*res).elems() == slice@.subrange(lo as int, hi as int).to_set(),
        (*res).bst(),
        (*res).balanced(),
        (*res).black_height() == k,
        (*res).no_red_red(),
        k > 0 ==> (*res).root_black(),
    decreases hi - lo,
{
    proof {
        lemma_pow2_pos(k as nat);
    }
    if k == 0 {
        if lo == hi {
            let res = Rc::new(Node::Leaf);
            proof {
                assert((*res).elems() =~= slice@.subrange(lo as int, hi as int).to_set());
                assert((*res).bst());
                assert((*res).balanced());
            }
            res
        } else {
            // The size bound forces exactly one element here.
            let e = Rc::new(Node::Leaf);
            let res = red(Rc::clone(&e), e, slice[lo]);
            proof {
                assert(Node::Leaf.elems() =~= Set::<i64>::empty());
                assert forall|y: i64|
                    slice@.subrange(lo as int, hi as int).to_set().contains(y) implies (
                *res).elems().contains(y) by {
                    let i = choose|i: int|
                        0 <= i < hi - lo && slice@.subrange(lo as int, hi as int)[i] == y;
                    assert(y == slice@[lo as int]);
                }
                assert(slice@.subrange(lo as int, hi as int)[0] == slice@[lo as int]);
                assert(slice@.subrange(lo as int, hi as int).contains(slice@[lo as int]));
                assert((*res).elems() =~= slice@.subrange(lo as int, hi as int).to_set());
                assert(Node::Leaf.bst());
                assert(Node::Leaf.balanced());
                assert(Node::Leaf.no_red_red());
                assert((*res).bst());
                assert((*res).balanced());
                assert((*res).no_red_red());
            }
            res
        }
    } else {
        let m = hi - lo;
        proof {
            assert(pow2(k as nat) == 2 * pow2((k - 1) as nat));
            lemma_pow2_pos((k - 1) as nat);
        }
        let b = (m - 1) / 2;
        let a = (m - 1) - b;
        let mid = lo + a;
        let left = link_from_sorted(slice, lo, mid, k - 1);
        let right = link_from_sorted(slice, mid + 1, hi, k - 1);
        let v = slice[mid];
        let res = black(left, right, v);
        proof {
            lemma_subrange_split_to_set(slice@, lo as int, mid as int, hi as int);
            assert((*res).elems() =~= slice@.subrange(lo as int, hi as int).to_set());
            assert forall|y: i64| (*res).elems().contains(y) && y != v implies (
            slice@.subrange(lo as int, mid as int).to_set().contains(y) || slice@.subrange(
                mid as int + 1,
                hi as int,
            ).to_set().contains(y)) by {}
            assert forall|y: i64| (*left).elems().contains(y) implies y < v by {
                assert(slice@.subrange(lo as int, mid as int).to_set().contains(y));
                let i = choose|i: int|
                    0 <= i < mid - lo && slice@.subrange(lo as int, mid as int)[i] == y;
                assert(slice@[lo + i] == y);
                assert(slice@[lo + i] < slice@[mid as int]);
            }
            assert forall|y: i64| (*right).elems().contains(y) implies y > v by {
                assert(slice@.subrange(mid as int + 1, hi as int).to_set().contains(y));
                let i = choose|i: int|
                    0 <= i < hi - (mid + 1) && #[trigger] slice@.subrange(mid as int + 1, hi as int)[i] == y;
                assert(slice@[mid + 1 + i] == y);
                assert(slice@[mid as int] < slice@[mid + 1 + i]);
            }
            assert((*res).bst());
            assert((*res).balanced());
        }
        res
    }
}

/// A persistent red-black tree of values.
///
/// The abstract value is the set of stored values; duplicates are never kept.
pub struct RBTree {
    root: Rc<Node>,
}

impl View for RBTree {
    type V = Set<i64>;

    closed spec fn view(&self) -> Set<i64> {
        (*self.root).elems()
    }
}

impl RBTree {
    /// The red-black invariants, maintained by every operation: no red node
    /// has a red child, every root-to-leaf path passes the same number of
    /// black nodes, and the values are in strict search-tree order.
    #[verifier::type_invariant]
    pub closed spec fn well_formed(self) -> bool {
        (*self.root).wf()
    }
}

impl Clone for RBTree {
    /// Cloning copies the root handle; the whole structure is shared.
    fn clone(&self) -> (t: Self)
        ensures
            t == *self,
    {
        proof {
            use_type_invariant(self);
        }
        RBTree { root: Rc::clone(&self.root) }
    }
}

impl RBTree {
    /// The empty tree.
    pub fn empty() -> (t: Self)
        ensures
            t@ == Set::<i64>::empty(),
    {
        RBTree { root: Rc::new(Node::Leaf) }
    }

    /// Whether the tree holds no value.
    pub fn is_empty(&self) -> (r: bool)
        ensures
            r <==> self@ == Set::<i64>::empty(),
    {
        match &*self.root {
            Node::Leaf => true,
            Node::Knot { color, left, right, val } => {
                proof {
                    assert(self@.contains(*val));
                }
                false
            },
        }
    }

    /// Whether `v` is in the tree.
    pub fn member(&self, v: i64) -> (r: bool)
        ensures
            r == self@.contains(v),
    {
        proof {
            use_type_invariant(self);
        }
        node_member(&self.root, v)
    }

    /// The value at the root, if any; the root of a non-empty tree always
    /// holds one of the tree's values.
    pub fn root_val(&self) -> (r: Option<i64>)
        ensures
            r matches Some(v) ==> self@.contains(v),
            r is None <==> self@ == Set::<i64>::empty(),
    {
        match &*self.root {
            Node::Leaf => None,
            Node::Knot { color, left, right, val } => {
                proof {
                    assert(self@.contains(*val));
                }
                Some(*val)
            },
        }
    }

    /// The tree with `v` added: the recursive insert may leave a red-red
    /// violation at the very top, so the root is forced black afterwards —
    /// the one recoloring done outside `balance`. Inserting a value that is
    /// already present reuses the original tree without allocating.
    pub fn insert(&self, v: i64) -> (t: Self)
        ensures
            t@ == self@.insert(v),
    {
        proof {
            use_type_invariant(self);
        }
        let r = ins(&self.root, v);
        match &*r {
            Node::Knot { color, left, right, val } => {
                let t = RBTree { root: black(Rc::clone(left), Rc::clone(right), *val) };
                proof {
                    assert(t@ =~= self@.insert(v));
                }
                t
            },
            Node::Leaf => {
                proof {
                    assert((*r).elems().contains(v));
                    assert(false);
                }
                vstd::pervasive::unreached()
            },
        }
    }

    /// The tree holding every value of a strictly sorted slice, built in one
    /// pass with no rotation: colours are assigned by depth so that both tree
    /// invariants hold outright.
    pub fn from_sorted(slice: &[i64]) -> (t: Self)
        requires
            sorted_strict(slice@),
        ensures
            t@ == slice@.to_set(),
    {
        let n = slice.len();
        // Find the black height: the k with 2^k - 1 <= n <= 2^(k+1) - 1.
        let mut k: usize = 0;
        let mut low: usize = 0;
        while n > low && n - low - 1 > low
            invariant
                low == pow2(k as nat) - 1,
                low <= n <= slice@.len(),
                k <= low + 1,
            decreases n - low,
        {
            proof {
                lemma_pow2_above((k + 1) as nat);
            }
            low = 2 * low + 1;
            k = k + 1;
        }
        let root = link_from_sorted(slice, 0, n, k);
        proof {
            assert(slice@.subrange(0, n as int) =~= slice@);
        }
        RBTree { root }
    }
}

impl Node {
    /// The values of the tree, in symmetric (left, root, right) order.
    spec fn to_seq(self) -> Seq<i64>
        decreases self,
    {
        match self {
            Node::Leaf => Seq::empty(),
            Node::Knot { color, left, right, val } => (*left).to_seq() + seq![val]
                + (*right).to_seq(),
        }
    }
}

spec fn seq_of(n: &Rc<Node>) -> Seq<i64> {
    (**n).to_seq()
}

/// In a search tree, the in-order sequence is strictly increasing and carries
/// exactly the tree's values.
proof fn lemma_node_inorder(n: &Node)
    requires
        n.bst(),
    ensures
        forall|i: int| 0 <= i < n.to_seq().len() ==> n.elems().contains(#[trigger] n.to_seq()[i]),
        forall|i: int, j: int|
            0 <= i < j < n.to_seq().len() ==> #[trigger] n.to_seq()[i] < #[trigger] n.to_seq()[j],
        n.to_seq().to_set() == n.elems(),
    decreases *n,
{
    match n {
        Node::Leaf => {
            assert(n.to_seq().to_set() =~= n.elems());
        },
        Node::Knot { color, left, right, val } => {
            lemma_node_inorder(&**left);
            lemma_node_inorder(&**right);
            let ghost ls = seq_of(left);
            let ghost rs = seq_of(right);
            let ghost s = n.to_seq();
            assert(s == ls + seq![*val] + rs);
            assert forall|i: int| 0 <= i < s.len() implies n.elems().contains(
                #[trigger] s[i],
            ) by {
                if i < ls.len() {
                    assert(s[i] == ls[i]);
                } else if i == ls.len() {
                    assert(s[i] == *val);
                } else {
                    assert(s[i] == rs[i - ls.len() - 1]);
                }
            }
            assert forall|i: int, j: int| 0 <= i < j < s.len() implies #[trigger] s[i]
                < #[trigger] s[j] by {
                if i < ls.len() {
                    assert(s[i] == ls[i]);
                    assert((**left).elems().contains(ls[i]));
                    assert(s[i] < *val);
                }
                if i == ls.len() {
                    assert(s[i] == *val);
                }
                if i > ls.len() {
                    assert(s[i] == rs[i - ls.len() - 1]);
                    assert((**right).elems().contains(rs[i - ls.len() - 1]));
                }
                if j < ls.len() {
                    assert(s[j] == ls[j]);
                    assert((**left).elems().contains(ls[j]));
                    assert(s[j] < *val);
                }
                if j == ls.len() {
                    assert(s[j] == *val);
                }
                if j > ls.len() {
                    assert(s[j] == rs[j - ls.len() - 1]);
                    assert((**right).elems().contains(rs[j - ls.len() - 1]));
                    assert(s[j] > *val);
                }
            }
            assert forall|y: i64| n.elems().contains(y) implies s.to_set().contains(y) by {
                if (**left).elems().contains(y) {
                    assert(ls.to_set().contains(y));
                    let i = choose|i: int| 0 <= i < ls.len() && ls[i] == y;
                    assert(s[i] == y);
                    assert(s.contains(y));
                } else if (**right).elems().contains(y) {
                    assert(rs.to_set().contains(y));
                    let i = choose|i: int| 0 <= i < rs.len() && rs[i] == y;
                    assert(s[i + ls.len() + 1] == y);
                    assert(s.contains(y));
                } else {
                    assert(y == *val);
                    assert(s[ls.len() as int] == y);
                    assert(s.contains(y));
                }
            }
            assert forall|y: i64| s.to_set().contains(y) implies n.elems().contains(y) by {
                let i = choose|i: int| 0 <= i < s.len() && s[i] == y;
            }
            assert(s.to_set() =~= n.elems());
        },
    }
}

impl RBTree {
    /// The values of the tree in symmetric order.
    pub closed spec fn inorder(&self) -> Seq<i64> {
        (*self.root).to_seq()
    }
}

/// The red-black tree's observable invariant: after any sequence of inserts —
/// indeed, for every well-formed tree — the in-order extraction is strictly
/// increasing, with no duplicates, and lists exactly the tree's values. The
/// colour invariants (no red node with a red child, uniform black height) are
/// part of [`RBTree::well_formed`], which every operation maintains.
pub proof fn lemma_inorder_sorted(t: &RBTree)
    requires
        t.well_formed(),
    ensures
        forall|i: int, j: int|
            0 <= i < j < t.inorder().len() ==> #[trigger] t.inorder()[i] < #[trigger] t.inorder()[j],
        t.inorder().to_set() == t@,
{
    lemma_node_inorder(&*t.root);
}

} // verus!
