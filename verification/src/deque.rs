//! Persistent double-ended queue with amortized O(1) operations.
//!
//! The deque is a pair of lists `(f, r)` representing the sequence
//! `f ++ reverse(r)`; `f` holds the front, `r` the back. Whenever an
//! operation leaves one side empty while the other holds two or more
//! elements, the non-empty side keeps its first element and donates the rest,
//! reversed, to the empty side — a symmetric form of the queue's rebuilding
//! rule with the same amortized bound.

use vstd::prelude::*;

use crate::Error;
use crate::list::{List, Node};

verus! {

/// A persistent deque.
///
/// The abstract value is the sequence of elements, front first.
pub struct Deque<T> {
    f: List<T>,
    r: List<T>,
}

impl<T> View for Deque<T> {
    type V = Seq<T>;

    closed spec fn view(&self) -> Seq<T> {
        self.f@ + self.r@.reverse()
    }
}

impl<T> Deque<T> {
    /// When the deque holds two or more elements, both sides are non-empty.
    #[verifier::type_invariant]
    spec fn wf(self) -> bool {
        self@.len() >= 2 ==> self.f@.len() > 0 && self.r@.len() > 0
    }
}

impl<T: Copy> Clone for Deque<T> {
    /// Cloning a deque copies two reference-counted handles; the clone shares
    /// all nodes with the original and observes the same sequence.
    fn clone(&self) -> (d: Self)
        ensures
            d == *self,
    {
        proof {
            use_type_invariant(self);
        }
        Deque { f: self.f.clone(), r: self.r.clone() }
    }
}

impl<T: Copy> Deque<T> {
    /// The empty deque.
    pub fn empty() -> (d: Self)
        ensures
            d@ == Seq::<T>::empty(),
    {
        let d = Deque { f: List::empty(), r: List::empty() };
        proof {
            assert(d@ =~= Seq::<T>::empty());
        }
        d
    }

    /// Whether the deque holds no element.
    pub fn is_empty(&self) -> (b: bool)
        ensures
            b <==> self@.len() == 0,
    {
        self.f.is_empty() && self.r.is_empty()
    }

    /// Re-establish the invariant for the given pair of lists: when one side
    /// is empty and the other holds two or more elements, the non-empty side
    /// keeps its first element and donates the rest, reversed, to the empty
    /// side.
    fn make(f: List<T>, r: List<T>) -> (d: Self)
        ensures
            d@ == f@ + r@.reverse(),
    {
        if f.is_empty() && !r.is_empty() {
            let hd = r.head();
            let tl = r.tail();
            match (hd, tl) {
                (Ok(x), Ok(xs)) => {
                    let d = Deque { f: xs.rev(), r: List::one(*x) };
                    proof {
                        assert(d@ =~= f@ + r@.reverse());
                    }
                    d
                },
                _ => Deque { f, r },
            }
        } else if !f.is_empty() && r.is_empty() {
            let hd = f.head();
            let tl = f.tail();
            match (hd, tl) {
                (Ok(x), Ok(xs)) => {
                    let d = Deque { f: List::one(*x), r: xs.rev() };
                    proof {
                        assert(d@ =~= f@ + r@.reverse());
                    }
                    d
                },
                _ => Deque { f, r },
            }
        } else {
            Deque { f, r }
        }
    }

    /// The deque with `x` added at the front.
    pub fn enq_front(&self, x: T) -> (d: Self)
        ensures
            d@ == seq![x] + self@,
    {
        proof {
            use_type_invariant(self);
        }
        let d = Deque::make(self.f.cons(x), self.r.clone());
        proof {
            assert(d@ =~= seq![x] + self@);
        }
        d
    }

    /// The deque with `x` added at the back.
    pub fn enq_back(&self, x: T) -> (d: Self)
        ensures
            d@ == self@.push(x),
    {
        proof {
            use_type_invariant(self);
        }
        let d = Deque::make(self.f.clone(), self.r.cons(x));
        proof {
            assert(d@ =~= self@.push(x));
        }
        d
    }

    /// The deque without its front element, or `EmptyCollection` on the
    /// empty deque.
    pub fn deq_front(&self) -> (res: Result<Self, Error>)
        ensures
            self@.len() > 0 ==> (res matches Ok(d) && d@ == self@.skip(1)),
            self@.len() == 0 ==> (res matches Err(e) && e == Error::EmptyCollection),
    {
        proof {
            use_type_invariant(self);
        }
        match self.f.root() {
            Node::Nil => {
                if self.r.is_empty() {
                    Err(Error::EmptyCollection)
                } else {
                    // By the invariant the deque holds exactly one element.
                    let d = Deque::empty();
                    proof {
                        assert(d@ =~= self@.skip(1));
                    }
                    Ok(d)
                }
            },
            Node::Cons(_, xs) => {
                let d = Deque::make(xs.clone(), self.r.clone());
                proof {
                    assert(d@ =~= self@.skip(1));
                }
                Ok(d)
            },
        }
    }

    /// The deque without its back element, or `EmptyCollection` on the
    /// empty deque.
    pub fn deq_back(&self) -> (res: Result<Self, Error>)
        ensures
            self@.len() > 0 ==> (res matches Ok(d) && d@ == self@.take(self@.len() - 1)),
            self@.len() == 0 ==> (res matches Err(e) && e == Error::EmptyCollection),
    {
        proof {
            use_type_invariant(self);
        }
        match self.r.root() {
            Node::Nil => {
                if self.f.is_empty() {
                    Err(Error::EmptyCollection)
                } else {
                    // By the invariant the deque holds exactly one element.
                    let d = Deque::empty();
                    proof {
                        assert(d@ =~= self@.take(self@.len() - 1));
                    }
                    Ok(d)
                }
            },
            Node::Cons(_, xs) => {
                let d = Deque::make(self.f.clone(), xs.clone());
                proof {
                    assert(d@ =~= self@.take(self@.len() - 1));
                }
                Ok(d)
            },
        }
    }

    /// The first element of `x ++ reverse(y)`, under the promise that `y`
    /// holds at most one element whenever `x` is empty.
    fn peek(x: &List<T>, y: &List<T>) -> (res: Result<T, Error>)
        requires
            x@.len() == 0 ==> y@.len() <= 1,
        ensures
            (x@ + y@.reverse()).len() > 0 ==> (res matches Ok(v) && v == (x@ + y@.reverse())[0]),
            (x@ + y@.reverse()).len() == 0 ==> (res matches Err(e) && e
                == Error::EmptyCollection),
    {
        match x.root() {
            Node::Nil => {
                match y.head() {
                    Ok(v) => Ok(*v),
                    Err(_) => Err(Error::EmptyCollection),
                }
            },
            Node::Cons(v, _) => Ok(*v),
        }
    }

    /// The front element, or `EmptyCollection` on the empty deque.
    pub fn front(&self) -> (res: Result<T, Error>)
        ensures
            self@.len() > 0 ==> (res matches Ok(v) && v == self@[0]),
            self@.len() == 0 ==> (res matches Err(e) && e == Error::EmptyCollection),
    {
        proof {
            use_type_invariant(self);
        }
        Deque::peek(&self.f, &self.r)
    }

    /// The back element, or `EmptyCollection` on the empty deque.
    pub fn back(&self) -> (res: Result<T, Error>)
        ensures
            self@.len() > 0 ==> (res matches Ok(v) && v == self@.last()),
            self@.len() == 0 ==> (res matches Err(e) && e == Error::EmptyCollection),
    {
        proof {
            use_type_invariant(self);
        }
        let res = Deque::peek(&self.r, &self.f);
        proof {
            assert((self.r@ + self.f@.reverse()).len() == self@.len());
            if self@.len() > 0 {
                assert((self.r@ + self.f@.reverse())[0] == self@.last());
            }
        }
        res
    }
}

} // verus!
