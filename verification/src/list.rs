//! Persistent singly linked list.
//!
//! A list is a chain of reference-counted cons cells. `cons` allocates one
//! new node and shares the whole old list as its tail, so any number of lists
//! may share the same suffix; a node is freed only when the last list that
//! reaches it is dropped.

use std::rc::Rc;
use vstd::prelude::*;

use crate::Error;

verus! {

/// One cell of a list: the end marker, or a value together with the shared
/// rest of the list.
pub enum Node<T> {
    Nil,
    Cons(T, List<T>),
}

/// A persistent list: a shared handle to a chain of [`Node`]s.
///
/// The abstract value of a list is the sequence of its elements, head first.
pub struct List<T>(pub Rc<Node<T>>);

fn list<T>(n: Node<T>) -> (l: List<T>)
    ensures
        *l.0 == n,
{
    List(Rc::new(n))
}

impl<T> Node<T> {
    /// The sequence of elements hanging off this node, head first.
    pub open spec fn elems(self) -> Seq<T>
        decreases self,
    {
        match self {
            Node::Nil => Seq::empty(),
            Node::Cons(v, tl) => seq![v] + (*tl.0).elems(),
        }
    }
}

impl<T> View for List<T> {
    type V = Seq<T>;

    open spec fn view(&self) -> Seq<T> {
        (*self.0).elems()
    }
}

impl<T> Clone for List<T> {
    /// Cloning a list copies one reference-counted handle; the clone shares
    /// every node with the original and observes the same sequence.
    fn clone(&self) -> (r: Self)
        ensures
            r == *self,
    {
        List(Rc::clone(&self.0))
    }
}

impl<T> List<T> {
    /// The empty list.
    pub fn empty() -> (l: Self)
        ensures
            l@ == Seq::<T>::empty(),
    {
        list(Node::Nil)
    }

    /// The list holding exactly `v`.
    pub fn one(v: T) -> (l: Self)
        ensures
            l@ == seq![v],
    {
        let t = list(Node::Nil);
        let ghost gt = t;
        let l = list(Node::Cons(v, t));
        proof {
            assert(gt@ =~= Seq::<T>::empty());
            assert(l@ =~= seq![v]);
        }
        l
    }

    /// Whether the list holds no element.
    pub fn is_empty(&self) -> (r: bool)
        ensures
            r <==> self@.len() == 0,
    {
        match &*self.0 {
            Node::Nil => true,
            _ => false,
        }
    }

    /// A new list with `v` in front of all elements of `self`; `self` is
    /// shared as the tail of the result and stays valid.
    pub fn cons(&self, v: T) -> (l: Self)
        ensures
            l@ == seq![v] + self@,
    {
        list(Node::Cons(v, self.clone()))
    }

    /// The root node, for callers that want to walk the chain themselves.
    pub fn root(&self) -> (n: &Node<T>)
        ensures
            *n == *self.0,
            n is Nil <==> self@.len() == 0,
            *n matches Node::Cons(v, tl) ==> self@.len() > 0 && v == self@[0] && tl@ == self@.skip(
                1,
            ),
    {
        &*self.0
    }

    /// The first element, or `EmptyCollection` on the empty list.
    pub fn head(&self) -> (r: Result<&T, Error>)
        ensures
            self@.len() > 0 ==> (r matches Ok(v) && *v == self@[0]),
            self@.len() == 0 ==> (r matches Err(e) && e == Error::EmptyCollection),
    {
        match &*self.0 {
            Node::Nil => Err(Error::EmptyCollection),
            Node::Cons(x, _) => Ok(x),
        }
    }

    /// The list of all elements after the first, or `EmptyCollection` on the
    /// empty list. The returned list is the shared tail, not a copy.
    pub fn tail(&self) -> (r: Result<&Self, Error>)
        ensures
            self@.len() > 0 ==> (r matches Ok(t) && t@ == self@.skip(1)),
            self@.len() == 0 ==> (r matches Err(e) && e == Error::EmptyCollection),
    {
        match &*self.0 {
            Node::Nil => Err(Error::EmptyCollection),
            Node::Cons(_, xs) => Ok(xs),
        }
    }

    /// The elements of `self` followed by the elements of `other`.
    ///
    /// `other` is shared entirely; only `self`'s spine is rebuilt.
    pub fn concat(&self, other: &List<T>) -> (l: Self) where T: Copy
        ensures
            l@ == self@ + other@,
        decreases self@.len(),
    {
        match &*self.0 {
            Node::Nil => {
                proof {
                    assert(self@ + other@ =~= other@);
                }
                other.clone()
            },
            Node::Cons(x, xs) => {
                let r = xs.concat(other).cons(*x);
                proof {
                    assert(r@ =~= self@ + other@);
                }
                r
            },
        }
    }

    /// The same list with the element at `idx` replaced by `v`, or
    /// `IndexOutOfRange` when `idx` is not a valid position. Only the prefix
    /// up to `idx` is rebuilt; the suffix after it is shared.
    pub fn update_at(&self, idx: usize, v: T) -> (r: Result<Self, Error>) where T: Copy
        ensures
            idx < self@.len() ==> (r matches Ok(l) && l@ == self@.update(idx as int, v)),
            idx >= self@.len() ==> (r matches Err(e) && e == Error::IndexOutOfRange),
        decreases self@.len(),
    {
        match &*self.0 {
            Node::Nil => Err(Error::IndexOutOfRange),
            Node::Cons(x, xs) => {
                if idx == 0 {
                    let l = xs.cons(v);
                    proof {
                        assert(l@ =~= self@.update(0, v));
                    }
                    Ok(l)
                } else {
                    match xs.update_at(idx - 1, v) {
                        Ok(l) => {
                            let l2 = l.cons(*x);
                            proof {
                                assert(l2@ =~= self@.update(idx as int, v));
                            }
                            Ok(l2)
                        },
                        Err(e) => Err(e),
                    }
                }
            },
        }
    }

    /// The list of all suffixes of `self`, longest first, ending with the
    /// empty list. Each suffix is shared with `self`, not copied.
    pub fn suffixes(&self) -> (r: List<Self>)
        ensures
            r@.len() == self@.len() + 1,
            forall|i: int| 0 <= i < r@.len() ==> (#[trigger] r@[i])@ == self@.skip(i),
        decreases self@.len(),
    {
        match &*self.0 {
            Node::Nil => {
                let r = List::one(List::empty());
                proof {
                    assert(r@[0]@ =~= self@.skip(0));
                }
                r
            },
            Node::Cons(_, xs) => {
                let r = xs.suffixes().cons(self.clone());
                proof {
                    assert forall|i: int| 0 <= i < r@.len() implies (#[trigger] r@[i])@ == self@.skip(
                        i,
                    ) by {
                        if i == 0 {
                            assert(r@[0]@ =~= self@.skip(0));
                        } else {
                            assert(r@[i]@ =~= xs@.skip(i - 1));
                            assert(xs@.skip(i - 1) =~= self@.skip(i));
                        }
                    }
                }
                r
            },
        }
    }

    fn rev_impl(&self, ret: Self) -> (r: Self) where T: Copy
        ensures
            r@ == self@.reverse() + ret@,
        decreases self@.len(),
    {
        match &*self.0 {
            Node::Nil => {
                proof {
                    assert(self@.reverse() + ret@ =~= ret@);
                }
                ret
            },
            Node::Cons(x, xs) => {
                let r = xs.rev_impl(ret.cons(*x));
                proof {
                    assert(r@ =~= self@.reverse() + ret@);
                }
                r
            },
        }
    }

    /// Concatenation is associative: concatenating `a` and `b` and then `c`
    /// traverses identically to concatenating `a` with the concatenation of
    /// `b` and `c`. Together with `concat`'s own contract — the result
    /// traverses `a`'s elements and then `b`'s — this pins down full
    /// traversal of any tree of concatenations.
    pub proof fn lemma_concat_associative(a: List<T>, b: List<T>, c: List<T>)
        ensures
            (a@ + b@) + c@ == a@ + (b@ + c@),
    {
        assert((a@ + b@) + c@ =~= a@ + (b@ + c@));
    }

    /// The elements of `self` in reverse order. Every element changes its
    /// position, so nothing can be shared; the whole spine is rebuilt.
    pub fn rev(&self) -> (r: Self) where T: Copy
        ensures
            r@ == self@.reverse(),
    {
        let r = self.rev_impl(List::empty());
        proof {
            assert(self@.reverse() + Seq::<T>::empty() =~= self@.reverse());
        }
        r
    }
}

} // verus!
