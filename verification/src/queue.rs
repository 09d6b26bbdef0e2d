//! Persistent queue with amortized O(1) operations.
//!
//! The queue is a pair of lists `(f, r)` representing the sequence
//! `f ++ reverse(r)`. Enqueued elements are consed onto `r`; whenever an
//! operation would leave `f` empty while `r` still holds elements, `r` is
//! reversed into `f` once. Each element is reversed at most once over its
//! lifetime in the queue, which gives the amortized bound.

use vstd::prelude::*;

use crate::Error;
use crate::list::{List, Node};

verus! {

/// A persistent first-in first-out queue.
///
/// The abstract value is the sequence of queued elements, front first.
pub struct Queue<T> {
    f: List<T>,
    r: List<T>,
}

impl<T> View for Queue<T> {
    type V = Seq<T>;

    closed spec fn view(&self) -> Seq<T> {
        self.f@ + self.r@.reverse()
    }
}

impl<T> Queue<T> {
    /// The front list may only be empty when the whole queue is empty.
    #[verifier::type_invariant]
    spec fn wf(self) -> bool {
        self.f@.len() == 0 ==> self.r@.len() == 0
    }
}

impl<T: Copy> Clone for Queue<T> {
    /// Cloning a queue copies two reference-counted handles; the clone shares
    /// all nodes with the original and observes the same sequence.
    fn clone(&self) -> (q: Self)
        ensures
            q == *self,
    {
        proof {
            use_type_invariant(self);
        }
        Queue { f: self.f.clone(), r: self.r.clone() }
    }
}

impl<T: Copy> Queue<T> {
    /// The empty queue.
    pub fn empty() -> (q: Self)
        ensures
            q@ == Seq::<T>::empty(),
    {
        let q = Queue { f: List::empty(), r: List::empty() };
        proof {
            assert(q@ =~= Seq::<T>::empty());
        }
        q
    }

    /// Whether the queue holds no element.
    pub fn is_empty(&self) -> (r: bool)
        ensures
            r <==> self@.len() == 0,
    {
        proof {
            use_type_invariant(self);
        }
        self.f.is_empty()
    }

    /// Re-establish the invariant for the given pair of lists: when `f` is
    /// empty, move `r` (reversed) to the front.
    fn check(f: List<T>, r: List<T>) -> (q: Self)
        ensures
            q@ == f@ + r@.reverse(),
    {
        if !f.is_empty() {
            Queue { f, r }
        } else {
            let q = Queue { f: r.rev(), r: List::empty() };
            proof {
                assert(q@ =~= f@ + r@.reverse());
            }
            q
        }
    }

    /// The queue with `x` added at the back; `self` stays valid and keeps
    /// observing the old sequence.
    pub fn enq(&self, x: T) -> (q: Self)
        ensures
            q@ == self@.push(x),
    {
        proof {
            use_type_invariant(self);
        }
        let q = Queue::check(self.f.clone(), self.r.cons(x));
        proof {
            assert(q@ =~= self@.push(x));
        }
        q
    }

    /// The front element, or `EmptyCollection` on the empty queue.
    pub fn top(&self) -> (r: Result<T, Error>)
        ensures
            self@.len() > 0 ==> (r matches Ok(v) && v == self@[0]),
            self@.len() == 0 ==> (r matches Err(e) && e == Error::EmptyCollection),
    {
        proof {
            use_type_invariant(self);
        }
        if self.f.is_empty() {
            Err(Error::EmptyCollection)
        } else {
            match self.f.head() {
                Ok(v) => Ok(*v),
                Err(e) => Err(e),
            }
        }
    }

    /// The queue without its front element, or `EmptyCollection` on the
    /// empty queue.
    pub fn deq(&self) -> (r: Result<Self, Error>)
        ensures
            self@.len() > 0 ==> (r matches Ok(q) && q@ == self@.skip(1)),
            self@.len() == 0 ==> (r matches Err(e) && e == Error::EmptyCollection),
    {
        proof {
            use_type_invariant(self);
        }
        match self.f.root() {
            Node::Nil => Err(Error::EmptyCollection),
            Node::Cons(_, xs) => {
                let q = Queue::check(xs.clone(), self.r.clone());
                proof {
                    assert(q@ =~= self@.skip(1));
                }
                Ok(q)
            },
        }
    }
}

} // verus!
