//! Traits that define roles.

use vstd::prelude::*;

verus! {

/// Determines whether an item should be filtered
pub trait Filter<I> {
    /// Filtrate is what passes through a filter
    fn is_filtrate(&self, item: I) -> bool;
}

/// A generic trait for request processors
pub trait Server<R, S> {
    /// Processes a request and returns a response
    fn serve(&self, request: R) -> S;
}

} // verus!
