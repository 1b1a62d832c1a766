//! Ranges of offsets that have both a start and an end.

use std::ops::{Range, RangeInclusive};

use vstd::prelude::*;

verus! {

/// Calls to `RangeInclusive::start`, of which we claim that it gives the first value of a range
/// that was not iterated to its end.
pub assume_specification<Idx>[ RangeInclusive::<Idx>::start ](range: &RangeInclusive<Idx>) -> (r:
    &Idx)
    ensures
        !range@.exhausted ==> *r == range@.start,
;

/// Calls to `RangeInclusive::end`, of which we claim that it gives the last value of a range
/// that was not iterated to its end.
pub assume_specification<Idx>[ RangeInclusive::<Idx>::end ](range: &RangeInclusive<Idx>) -> (r:
    &Idx)
    ensures
        !range@.exhausted ==> *r == range@.end,
;

/// A range of offsets with an included start and an end of either kind.
pub trait OffsetBounds {
    /// The first offset.
    spec fn first(&self) -> u64;

    /// The offset behind the last one.
    spec fn past(&self) -> int;

    /// Whether the offset behind the last one can be given.
    spec fn bounded(&self) -> bool;

    /// The first offset, and the one behind the last.
    fn start_and_end(&self) -> (r: (u64, u64))
        requires
            self.bounded(),
        ensures
            r.0 == self.first(),
            r.1 == self.past(),
    ;
}

impl OffsetBounds for Range<u64> {
    open spec fn first(&self) -> u64 {
        self.start
    }

    open spec fn past(&self) -> int {
        self.end as int
    }

    open spec fn bounded(&self) -> bool {
        true
    }

    fn start_and_end(&self) -> (r: (u64, u64)) {
        (self.start, self.end)
    }
}

impl OffsetBounds for RangeInclusive<u64> {
    open spec fn first(&self) -> u64 {
        self@.start
    }

    open spec fn past(&self) -> int {
        self@.end + 1
    }

    open spec fn bounded(&self) -> bool {
        !self@.exhausted && self@.end < u64::MAX
    }

    fn start_and_end(&self) -> (r: (u64, u64)) {
        (*self.start(), *self.end() + 1)
    }
}

/// The bounds of a range are its own.
pub proof fn law_bounds_of_ranges(range: Range<u64>, inclusive: RangeInclusive<u64>)
    ensures
        range.bounded(),
        range.first() == range.start,
        range.past() == range.end,
        inclusive.bounded() <==> !inclusive@.exhausted && inclusive@.end < u64::MAX,
        inclusive.first() == inclusive@.start,
        inclusive.past() == inclusive@.end + 1,
{
}

} // verus!
