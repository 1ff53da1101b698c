//! The one fact this crate takes from std without a vstd specification: a
//! `VecDeque`'s reported capacity.

use std::collections::VecDeque;
use vstd::prelude::*;

verus! {

/// Relies on std's `VecDeque::capacity`: it reports how many elements the
/// buffer can hold without reallocating, and the buffer already holds its
/// current elements, so the report is never below the length.
#[verifier::external_body]
pub fn deque_capacity<T>(v: &VecDeque<T>) -> (n: usize)
    ensures
        n >= v@.len(),
{
    v.capacity()
}

} // verus!
