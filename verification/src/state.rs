//! What the streaming task tells the reader.

use vstd::prelude::*;

use crate::error::AsyncHttpRangeReaderError;
use crate::sparse_range::SparseRange;

verus! {

/// How many bytes behind the current position are kept, unless told otherwise.
pub const BACKWARD_MEMORY_LIMIT: u64 = 20 * 1024 * 1024;

/// The progress of the streaming task.
#[derive(Debug)]
pub struct StreamerState {
    /// The ranges that HTTP requests were made for.
    pub requested_ranges: SparseRange,
    /// The bytes that are held, or are still to come. What is freed is not among them any more.
    pub coming_ranges: SparseRange,
    /// How many of the ranges that the reader has asked for were taken up.
    pub taken_requests: u64,
    /// How many HTTP requests were made.
    pub requested_time: usize,
    /// How many bytes behind the current position are kept.
    pub backward_memory_limit: u64,
    /// What went wrong, if anything did.
    pub error: Option<AsyncHttpRangeReaderError>,
}

impl StreamerState {
    /// The invariant.
    pub open spec fn wf(&self) -> bool {
        self.requested_ranges.wf() && self.coming_ranges.wf()
    }

    /// Whether two states tell the same.
    pub open spec fn tells_as(&self, other: StreamerState) -> bool {
        &&& self.requested_ranges.entries() == other.requested_ranges.entries()
        &&& self.coming_ranges.entries() == other.coming_ranges.entries()
        &&& self.taken_requests == other.taken_requests
        &&& self.requested_time == other.requested_time
        &&& self.backward_memory_limit == other.backward_memory_limit
        &&& self.error == other.error
    }
}

impl Default for StreamerState {
    /// Nothing was requested yet.
    fn default() -> (r: Self)
        ensures
            r.wf(),
            r.requested_ranges.entries() == Seq::<(u64, u64)>::empty(),
            r.coming_ranges.entries() == Seq::<(u64, u64)>::empty(),
            r.taken_requests == 0,
            r.requested_time == 0,
            r.backward_memory_limit == BACKWARD_MEMORY_LIMIT,
            r.error is None,
    {
        StreamerState {
            requested_ranges: SparseRange::default(),
            coming_ranges: SparseRange::default(),
            taken_requests: 0,
            requested_time: 0,
            backward_memory_limit: BACKWARD_MEMORY_LIMIT,
            error: None,
        }
    }
}

impl Clone for StreamerState {
    fn clone(&self) -> (r: Self)
        ensures
            r.tells_as(*self),
            self.wf() ==> r.wf(),
    {
        StreamerState {
            requested_ranges: self.requested_ranges.clone(),
            coming_ranges: self.coming_ranges.clone(),
            taken_requests: self.taken_requests,
            requested_time: self.requested_time,
            backward_memory_limit: self.backward_memory_limit,
            error: match &self.error {
                Some(error) => Some(error.clone()),
                None => None,
            },
        }
    }
}

/// Twenty mebibytes are kept, unless told otherwise.
pub proof fn law_default_limit()
    ensures
        BACKWARD_MEMORY_LIMIT == 20 * 1024 * 1024,
{
}

/// States that tell the same agree in all that a reader goes by.
pub proof fn law_states_that_tell_the_same(a: StreamerState, b: StreamerState)
    requires
        a.tells_as(b),
    ensures
        a.requested_ranges@ == b.requested_ranges@,
        a.coming_ranges@ == b.coming_ranges@,
        a.requested_ranges.entries() == b.requested_ranges.entries(),
        a.coming_ranges.entries() == b.coming_ranges.entries(),
        a.taken_requests == b.taken_requests,
        a.requested_time == b.requested_time,
        a.backward_memory_limit == b.backward_memory_limit,
        a.error == b.error,
{
    assert(a.requested_ranges@ =~= b.requested_ranges@);
    assert(a.coming_ranges@ =~= b.coming_ranges@);
}

} // verus!
