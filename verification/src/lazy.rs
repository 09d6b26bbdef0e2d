//! Memoizing delayed computation.
//!
//! A [`Delayed`] value is a two-state cell: either a pending closure or a
//! memoized result. Forcing a pending cell invokes the closure once and the
//! cell becomes memoized; memoized is terminal, so forcing again neither runs
//! the closure nor changes the value. The closure is expected to be pure —
//! everything the contract promises about the result is phrased through the
//! closure's own postcondition.

use vstd::prelude::*;

verus! {

#[verifier::reject_recursive_types(T)]
enum ThunkState<T, F: Fn() -> T> {
    Pending(F),
    Memoized(T),
}

/// A memoizing thunk: a deferred computation of a `T` by a closure `F`.
#[verifier::reject_recursive_types(T)]
pub struct Delayed<T, F: Fn() -> T> {
    state: ThunkState<T, F>,
}

impl<T, F: Fn() -> T> Delayed<T, F> {
    /// Whether the cell already holds its result.
    pub closed spec fn is_memoized(&self) -> bool {
        self.state is Memoized
    }

    /// The memoized result (meaningful only once `is_memoized`).
    pub closed spec fn value(&self) -> T {
        self.state->Memoized_0
    }

    /// The pending closure (meaningful only before the first force).
    pub closed spec fn pending_fn(&self) -> F {
        self.state->Pending_0
    }

    /// A pending closure can always be called.
    #[verifier::type_invariant]
    spec fn wf(self) -> bool {
        self.state matches ThunkState::Pending(f) ==> call_requires(f, ())
    }

    /// A cell that will compute its value by calling `f` when first forced.
    pub fn new(f: F) -> (d: Self)
        requires
            call_requires(f, ()),
        ensures
            !d.is_memoized(),
            d.pending_fn() == f,
    {
        Delayed { state: ThunkState::Pending(f) }
    }

    /// A cell that is already memoized to `v`; forcing it never computes.
    pub fn constant(v: T) -> (d: Self)
        ensures
            d.is_memoized(),
            d.value() == v,
    {
        Delayed { state: ThunkState::Memoized(v) }
    }

    /// Force the cell: a pending closure is invoked, once, and its result
    /// memoized; a memoized cell is left exactly as it is, and the closure —
    /// long gone — cannot run again.
    pub fn force(&mut self)
        ensures
            final(self).is_memoized(),
            old(self).is_memoized() ==> *final(self) == *old(self),
            !old(self).is_memoized() ==> call_ensures(
                old(self).pending_fn(),
                (),
                final(self).value(),
            ),
    {
        proof {
            use_type_invariant(&*self);
        }
        let computed = match &self.state {
            ThunkState::Pending(f) => Some(f()),
            ThunkState::Memoized(_) => None,
        };
        match computed {
            Some(v) => {
                self.state = ThunkState::Memoized(v);
            },
            None => {},
        }
    }

    /// The cell's value, forcing it first; a second call returns the memo
    /// without evaluating anything.
    pub fn eval(&mut self) -> (r: &T)
        ensures
            final(self).is_memoized(),
            *r == final(self).value(),
            old(self).is_memoized() ==> *final(self) == *old(self),
            !old(self).is_memoized() ==> call_ensures(
                old(self).pending_fn(),
                (),
                final(self).value(),
            ),
    {
        self.force();
        match &self.state {
            ThunkState::Memoized(v) => v,
            ThunkState::Pending(_) => vstd::pervasive::unreached(),
        }
    }
}

} // verus!
