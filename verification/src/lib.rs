//! Persistent (immutable, structure-sharing) collections.
//!
//! Every operation that looks like a mutation returns a new handle to a
//! logically updated structure while physically sharing as much of the old
//! structure as possible; old handles stay valid and keep observing the old
//! value. Sharing is done through reference counting (`Rc`, so handles belong
//! to one thread), and no operation ever creates a cycle: construction only
//! points new nodes at existing structure, never rewires anything in place.

use vstd::prelude::*;

pub mod binheap;
pub mod bintree;
pub mod deque;
pub mod lazy;
pub mod leftheap;
pub mod list;
pub mod order;
pub mod queue;
pub mod rbtree;
pub mod stream;

verus! {

/// The failure kinds of the library.
///
/// Every accessor that cannot return a value on some input reports one of
/// these instead of panicking; the caller decides whether to recover, e.g. by
/// checking emptiness or bounds beforehand.
#[derive(Clone, Copy, Debug, PartialEq, Eq, Structural)]
pub enum Error {
    /// An accessor was called on an empty structure (list head or tail,
    /// queue or deque top or pop, heap find-min or delete-min).
    EmptyCollection,
    /// An index-based list update reached past the end of the list.
    IndexOutOfRange,
    /// Two binomial trees of unequal rank were linked. Linking is an internal
    /// step whose precondition the verified callers are proven to respect, so
    /// no function of this library ever returns this kind; it exists so that
    /// the set of failure kinds is complete.
    RankMismatch,
}

} // verus!
