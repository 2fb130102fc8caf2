//! Functions of the standard library that are called with a contract.

use std::collections::VecDeque;
use std::sync::Arc;
use vstd::prelude::*;

verus! {

/// Overwrites the element at a position, by `VecDeque::index_mut`.
///
/// Trusted of it: the place that it hands out is the one at the position, so that writing to it
/// changes this element only. It panics on a position outside of the deque.
#[verifier::external_body]
pub(crate) fn set_at<T>(deque: &mut VecDeque<T>, position: usize, value: T)
    requires
        position < old(deque)@.len(),
    ensures
        final(deque)@ == old(deque)@.update(position as int, value),
{
    deque[position] = value;
}

/// Calls `Arc::make_mut`, which hands out a mutable reference to what an `Arc` holds.
///
/// Trusted of it: the reference is to the value of the `Arc`, or, where other pointers share that
/// value, to a clone of it which the `Arc` holds from then on; what is written through the
/// reference is what the `Arc` holds.
#[verifier::external_body]
pub(crate) fn arc_make_mut<T: Clone>(arc: &mut Arc<T>) -> (value: &mut T)
    ensures
        *value == **old(arc) || cloned(**old(arc), *value),
        **final(arc) == *final(value),
{
    Arc::make_mut(arc)
}

} // verus!
