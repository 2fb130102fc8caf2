//! Ranges of positions.

use std::ops::{Bound, Range, RangeBounds, RangeInclusive};
use vstd::prelude::*;

verus! {

/// An end of a range, `std::ops::Bound`, with its variants as they are.
#[verifier::external_type_specification]
#[verifier::reject_recursive_types(T)]
pub struct ExBound<T>(std::ops::Bound<T>);

/// `RangeBounds::start_bound` of a range `a..=b`. Trusted of it: the result is `a`, which belongs
/// to the range.
pub assume_specification<T>[ <std::ops::RangeInclusive<T> as std::ops::RangeBounds<T>>::start_bound ](
    range: &std::ops::RangeInclusive<T>,
) -> (bound: std::ops::Bound<&T>)
    ensures
        bound == Bound::Included(&range@.start),
;

/// `RangeBounds::end_bound` of a range `a..=b`. Trusted of it: the result is `b`, which belongs to
/// the range. What it gives for a range that was iterated over to its end is left open.
pub assume_specification<T>[ <std::ops::RangeInclusive<T> as std::ops::RangeBounds<T>>::end_bound ](
    range: &std::ops::RangeInclusive<T>,
) -> (bound: std::ops::Bound<&T>)
    ensures
        !range@.exhausted ==> bound == Bound::Included(&range@.end),
;

/// A range of positions in the log, with or without its end.
#[derive(Debug, PartialEq, Eq)]
pub enum LogRange<T> {
    /// A range without its end
    Range(Range<T>),
    /// A range with its end
    RangeInclusive(RangeInclusive<T>),
}

impl<T> RangeBounds<T> for LogRange<T> {
    fn start_bound(&self) -> (bound: Bound<&T>)
        ensures
            match self {
                LogRange::Range(range) => bound == Bound::Included(&range.start),
                LogRange::RangeInclusive(range) => bound == Bound::Included(&range@.start),
            },
    {
        match self {
            LogRange::Range(range) => Bound::Included(&range.start),
            LogRange::RangeInclusive(range) => range.start_bound(),
        }
    }

    fn end_bound(&self) -> (bound: Bound<&T>)
        ensures
            match self {
                LogRange::Range(range) => bound == Bound::Excluded(&range.end),
                LogRange::RangeInclusive(range) => !range@.exhausted ==> bound == Bound::Included(
                    &range@.end,
                ),
            },
    {
        match self {
            LogRange::Range(range) => Bound::Excluded(&range.end),
            LogRange::RangeInclusive(range) => range.end_bound(),
        }
    }
}

impl<T> From<Range<T>> for LogRange<T> {
    fn from(range: Range<T>) -> (result: Self) {
        LogRange::Range(range)
    }
}

impl<T> vstd::std_specs::convert::FromSpecImpl<Range<T>> for LogRange<T> {
    open spec fn obeys_from_spec() -> bool {
        true
    }

    open spec fn from_spec(range: Range<T>) -> Self {
        LogRange::Range(range)
    }
}

impl<T> From<RangeInclusive<T>> for LogRange<T> {
    fn from(range: RangeInclusive<T>) -> (result: Self) {
        LogRange::RangeInclusive(range)
    }
}

impl<T> vstd::std_specs::convert::FromSpecImpl<RangeInclusive<T>> for LogRange<T> {
    open spec fn obeys_from_spec() -> bool {
        true
    }

    open spec fn from_spec(range: RangeInclusive<T>) -> Self {
        LogRange::RangeInclusive(range)
    }
}

} // verus!
