//! Iteration in which an item borrows from the iterator and is gone with
//! the next call.
use vstd::prelude::*;

verus! {

/// An iterator whose items may borrow from the iterator itself: an item is
/// valid until `next` is called again.
pub trait LendingIterator {
    /// The type of the items, which can borrow from `Self`.
    type Item<'a> where Self: 'a;

    /// Advances the iterator and returns the next item, if there is one.
    fn next<'a>(&'a mut self) -> Option<Self::Item<'a>>;
}

} // verus!
