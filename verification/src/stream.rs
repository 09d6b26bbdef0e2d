//! Lazily evaluated stream.
//!
//! A stream is a handle to a suspended computation of a cons cell. The
//! operations `cons`, `concat`, `take`, `drop` and `reverse` all run in O(1):
//! each wraps the inputs in a new suspension that, when forced, performs one
//! step of the corresponding list operation and suspends the rest, so a
//! consumer pays only for the prefix it actually forces. `drop` forces only
//! the cells it skips, and `reverse` — inherently — must force its whole
//! input when first observed, since every element changes position.

use std::rc::Rc;
use vstd::prelude::*;

verus! {

/// A forced stream cell: the end of the stream, or its first value together
/// with the suspended rest.
pub enum StreamCell<T> {
    Nil,
    Cons(T, Stream<T>),
}

/// The suspended computation behind a stream handle.
enum StreamOp<T> {
    /// An already evaluated cell.
    Ready(StreamCell<T>),
    /// The elements of one stream followed by those of another.
    Concat(Stream<T>, Stream<T>),
    /// At most the first `n` elements of a stream.
    Take(Stream<T>, usize),
    /// Everything after the first `n` elements of a stream.
    Drop(Stream<T>, usize),
    /// The elements of a stream in reverse order.
    Reverse(Stream<T>),
}

/// A persistent, lazily evaluated sequence of values.
///
/// The abstract value is the sequence of all elements the stream would yield
/// if forced to the end.
pub struct Stream<T> {
    op: Rc<StreamOp<T>>,
}

impl<T> StreamCell<T> {
    /// The deferred work reachable through the cell's tail.
    spec fn pending(self) -> nat {
        match self {
            StreamCell::Nil => 0,
            StreamCell::Cons(_, rest) => (*rest.op).suspended(),
        }
    }

    /// The elements of an evaluated cell.
    spec fn elems(self) -> Seq<T> {
        match self {
            StreamCell::Nil => Seq::empty(),
            StreamCell::Cons(v, rest) => seq![v] + (*rest.op).elems(),
        }
    }
}

impl<T> StreamOp<T> {
    /// The elements of a suspended computation.
    spec fn elems(self) -> Seq<T>
        decreases self,
    {
        match self {
            StreamOp::Ready(StreamCell::Nil) => Seq::empty(),
            StreamOp::Ready(StreamCell::Cons(v, rest)) => seq![v] + (*rest.op).elems(),
            StreamOp::Concat(a, b) => (*a.op).elems() + (*b.op).elems(),
            StreamOp::Take(s, n) => if n <= (*s.op).elems().len() {
                (*s.op).elems().take(n as int)
            } else {
                (*s.op).elems()
            },
            StreamOp::Drop(s, n) => if n <= (*s.op).elems().len() {
                (*s.op).elems().skip(n as int)
            } else {
                Seq::empty()
            },
            StreamOp::Reverse(s) => (*s.op).elems().reverse(),
        }
    }

    /// How many suspended operation nodes the handle can still trigger; an
    /// already evaluated spine costs nothing.
    spec fn suspended(self) -> nat
        decreases self,
    {
        match self {
            StreamOp::Ready(StreamCell::Nil) => 0,
            StreamOp::Ready(StreamCell::Cons(_, rest)) => (*rest.op).suspended(),
            StreamOp::Concat(a, b) => 1 + (*a.op).suspended() + (*b.op).suspended(),
            StreamOp::Take(s, _) => 1 + (*s.op).suspended(),
            StreamOp::Drop(s, _) => 1 + (*s.op).suspended(),
            StreamOp::Reverse(s) => 1 + (*s.op).suspended(),
        }
    }
}

impl<T> View for Stream<T> {
    type V = Seq<T>;

    closed spec fn view(&self) -> Seq<T> {
        (*self.op).elems()
    }
}

impl<T> Stream<T> {
    /// The amount of deferred work this handle can still trigger. Every
    /// operation builds a handle with one more suspension; forcing never
    /// hands back a rest with more suspensions than the handle it came from.
    pub closed spec fn suspended(&self) -> nat {
        (*self.op).suspended()
    }
}

impl<T> Clone for Stream<T> {
    /// Cloning a stream copies one handle; nothing is forced.
    fn clone(&self) -> (s: Self)
        ensures
            s == *self,
    {
        Stream { op: Rc::clone(&self.op) }
    }
}

fn stream<T>(op: StreamOp<T>) -> (s: Stream<T>)
    ensures
        *s.op == op,
{
    Stream { op: Rc::new(op) }
}

impl<T: Copy> Stream<T> {
    /// The empty stream.
    pub fn empty() -> (s: Self)
        ensures
            s@ == Seq::<T>::empty(),
            s.suspended() == 0,
    {
        let s = stream(StreamOp::Ready(StreamCell::Nil));
        proof {
            assert(s@ =~= Seq::<T>::empty());
        }
        s
    }

    /// The stream yielding `v` and then everything `self` yields; O(1), and
    /// `self` is shared, not copied.
    pub fn cons(&self, v: T) -> (s: Self)
        ensures
            s@ == seq![v] + self@,
    {
        let s = stream(StreamOp::Ready(StreamCell::Cons(v, self.clone())));
        proof {
            assert(s@ =~= seq![v] + self@);
        }
        s
    }

    /// The stream yielding `self`'s elements and then `other`'s. O(1): a
    /// suspension that performs one step per forced cell, so even an
    /// arbitrarily long `self` costs nothing until observed.
    pub fn concat(&self, other: &Self) -> (s: Self)
        ensures
            s@ == self@ + other@,
    {
        let s = stream(StreamOp::Concat(self.clone(), other.clone()));
        proof {
            assert(s@ == self@ + other@);
        }
        s
    }

    /// The stream of at most the first `u` elements of `self`; O(1) until
    /// observed.
    pub fn take(&self, u: usize) -> (s: Self)
        ensures
            u <= self@.len() ==> s@ == self@.take(u as int),
            u > self@.len() ==> s@ == self@,
    {
        let s = stream(StreamOp::Take(self.clone(), u));
        proof {
            assert(u <= self@.len() ==> s@ == self@.take(u as int));
            assert(u > self@.len() ==> s@ == self@);
        }
        s
    }

    /// The stream of everything after the first `u` elements of `self`; O(1)
    /// until observed, and forcing it forces no more of `self` than the `u`
    /// skipped cells and the one produced.
    pub fn drop(&self, u: usize) -> (s: Self)
        ensures
            u <= self@.len() ==> s@ == self@.skip(u as int),
            u > self@.len() ==> s@ == Seq::<T>::empty(),
    {
        let s = stream(StreamOp::Drop(self.clone(), u));
        proof {
            assert(u <= self@.len() ==> s@ == self@.skip(u as int));
            assert(u > self@.len() ==> s@ == Seq::<T>::empty());
        }
        s
    }

    /// The stream of `self`'s elements in reverse order; O(1) until observed.
    /// Forcing its first cell must force all of `self`: every element's
    /// position changes, so reversal cannot be done incrementally.
    pub fn reverse(&self) -> (s: Self)
        ensures
            s@ == self@.reverse(),
    {
        let s = stream(StreamOp::Reverse(self.clone()));
        proof {
            assert(s@ == self@.reverse());
        }
        s
    }

    /// Evaluate the stream to its first cell: the end marker, or the first
    /// value and the suspended rest. Only the work needed for that one cell
    /// is performed.
    #[verifier::loop_isolation(false)]
    pub fn force(&self) -> (c: StreamCell<T>)
        ensures
            c is Nil <==> self@.len() == 0,
            c matches StreamCell::Cons(v, rest) ==> v == self@[0] && rest@ == self@.skip(1)
                && rest.suspended() <= self.suspended(),
        decreases self.suspended(), 0nat, 0nat,
    {
        match &*self.op {
            StreamOp::Ready(c) => {
                match c {
                    StreamCell::Nil => StreamCell::Nil,
                    StreamCell::Cons(v, rest) => {
                        let r = StreamCell::Cons(*v, rest.clone());
                        proof {
                            assert(self@ == c.elems());
                            assert(self@ == seq![*v] + rest@);
                            assert(rest@ =~= self@.skip(1));
                        }
                        r
                    },
                }
            },
            StreamOp::Concat(a, b) => {
                match a.force() {
                    StreamCell::Nil => {
                        let c = b.force();
                        proof {
                            assert(self@ =~= b@);
                        }
                        c
                    },
                    StreamCell::Cons(x, xs) => {
                        let rest = stream(StreamOp::Concat(xs, b.clone()));
                        proof {
                            assert(rest@ =~= self@.skip(1));
                        }
                        StreamCell::Cons(x, rest)
                    },
                }
            },
            StreamOp::Take(s, n) => {
                if *n == 0 {
                    proof {
                        assert(self@ =~= Seq::<T>::empty());
                    }
                    StreamCell::Nil
                } else {
                    match s.force() {
                        StreamCell::Nil => StreamCell::Nil,
                        StreamCell::Cons(x, xs) => {
                            let rest = stream(StreamOp::Take(xs, *n - 1));
                            proof {
                                assert(rest@ =~= self@.skip(1));
                            }
                            StreamCell::Cons(x, rest)
                        },
                    }
                }
            },
            StreamOp::Drop(s, n) => {
                proof {
                    assert(self.suspended() == 1 + s.suspended());
                }
                let mut cur = s.clone();
                let mut k = *n;
                while k > 0
                    invariant
                        cur.suspended() <= s.suspended(),
                        (*self.op).elems() == (if k <= cur@.len() {
                            cur@.skip(k as int)
                        } else {
                            Seq::<T>::empty()
                        }),
                    decreases k,
                {
                    match cur.force() {
                        StreamCell::Nil => {
                            return StreamCell::Nil;
                        },
                        StreamCell::Cons(_, xs) => {
                            proof {
                                if k <= cur@.len() {
                                    assert(xs@.skip(k - 1) =~= cur@.skip(k as int));
                                }
                            }
                            cur = xs;
                            k = k - 1;
                        },
                    }
                }
                proof {
                    assert(cur@.skip(0) =~= cur@);
                    assert(self@ == cur@);
                }
                let c = cur.force();
                c
            },
            StreamOp::Reverse(s) => {
                let c = rev_force(s, StreamCell::Nil);
                proof {
                    assert(StreamCell::<T>::Nil.elems() =~= Seq::<T>::empty());
                    assert(c.elems() =~= self@);
                    match &c {
                        StreamCell::Nil => {},
                        StreamCell::Cons(v, rest) => {
                            assert(c.elems() == seq![*v] + rest@);
                            assert(rest@ =~= self@.skip(1));
                        },
                    }
                }
                c
            },
        }
    }
}

/// Force `cur` to the end, prepending each value onto `acc`; the result is
/// the fully evaluated reversal of `cur` followed by `acc`. `acc` is a chain
/// of already evaluated cells, and so is the result.
fn rev_force<T: Copy>(cur: &Stream<T>, acc: StreamCell<T>) -> (c: StreamCell<T>)
    requires
        acc.pending() == 0,
    ensures
        c.elems() == cur@.reverse() + acc.elems(),
        c.pending() == 0,
    decreases cur.suspended(), 1nat, cur@.len(),
{
    match cur.force() {
        StreamCell::Nil => {
            proof {
                assert(cur@.reverse() + acc.elems() =~= acc.elems());
            }
            acc
        },
        StreamCell::Cons(x, xs) => {
            let ghost old_acc = acc;
            let acc2 = StreamCell::Cons(x, stream(StreamOp::Ready(acc)));
            proof {
                assert(acc2.elems() =~= seq![x] + old_acc.elems());
            }
            let c = rev_force(&xs, acc2);
            proof {
                assert(xs@.reverse() + (seq![x] + old_acc.elems()) =~= cur@.reverse()
                    + old_acc.elems());
            }
            c
        },
    }
}

} // verus!
