//! The streaming task: which requests it makes, and what it does with the responses.

use std::ops::{Range, RangeInclusive};

use bytes::Bytes;
use vstd::prelude::*;
use vstd::string::StringExecFns;

use crate::buffer::{self, bytes_len};
use crate::chunks;
use crate::decimal::{self, push_decimal};
use crate::entries;
use crate::error::AsyncHttpRangeReaderError;
use crate::memory_map::{self, MemoryMap};
use crate::state::StreamerState;

verus! {

/// What the task is at.
#[derive(Debug, Clone, Copy)]
pub enum Phase {
    /// It waits for a range to download.
    Idle,
    /// It waits for the response to a request for `start..=end`.
    Opening { start: u64, end: u64 },
    /// It reads a response, from the position `protect` on, until `target` is reached. The
    /// response may be the one to the initial request.
    Reading { target: u64, protect: u64, initial: bool },
    /// It tells of its progress in reading a response.
    Telling { target: u64, protect: u64, initial: bool },
    /// It is over.
    Stopped,
}

/// What the task is told.
#[derive(Debug)]
pub enum StreamerEvent {
    /// The task was started, with a response to the initial request that begins at a position,
    /// or without one.
    Started { initial: Option<u64> },
    /// A range is to be downloaded.
    Requested { range: Range<u64> },
    /// No further range will be asked for.
    RequestsClosed,
    /// A response has come. It may hold a part of the file only.
    Opened { partial: bool },
    /// No response has come.
    OpenFailed { message: String },
    /// A response has gone on with these bytes.
    Chunk { bytes: Bytes },
    /// A response is at its end.
    BodyEnded,
    /// A response has broken off.
    BodyFailed { message: String },
    /// The progress was told, to somebody or to nobody.
    Published { delivered: bool },
}

/// What the task does next.
#[derive(Debug)]
pub enum StreamerAction {
    /// Wait for a range to download.
    AwaitRequest,
    /// Send a request with this `Range` header.
    OpenRange(String),
    /// Wait for the next bytes of the response.
    ReadChunk,
    /// Tell of the progress.
    Publish,
    /// Tell of the error, and end.
    PublishAndStop,
    /// End.
    Stop,
}

/// What the task does next, as a value of specifications.
pub enum Step {
    AwaitRequest,
    OpenRange(Seq<char>),
    ReadChunk,
    Publish,
    PublishAndStop,
    Stop,
}

impl View for StreamerAction {
    type V = Step;

    open spec fn view(&self) -> Step {
        match *self {
            StreamerAction::AwaitRequest => Step::AwaitRequest,
            StreamerAction::OpenRange(header) => Step::OpenRange(header@),
            StreamerAction::ReadChunk => Step::ReadChunk,
            StreamerAction::Publish => Step::Publish,
            StreamerAction::PublishAndStop => Step::PublishAndStop,
            StreamerAction::Stop => Step::Stop,
        }
    }
}

/// The streaming task, between two things that it does.
#[derive(Debug)]
pub struct Streamer {
    /// What it tells the reader.
    pub state: StreamerState,
    /// The position that the open response has come to.
    pub position: Option<u64>,
    /// The ranges that were missing of the one to download.
    pub missing: Vec<RangeInclusive<u64>>,
    /// How many of them were taken up.
    pub taken: usize,
    /// What it is at.
    pub phase: Phase,
}

/// The progress of the streaming task, as a value of specifications.
pub struct Progress {
    /// The ranges that requests were made for.
    pub requested: Seq<(u64, u64)>,
    /// The bytes that are held, or are still to come.
    pub coming: Seq<(u64, u64)>,
    /// How many of the ranges that were asked for were taken up.
    pub taken_requests: int,
    /// How many requests were made.
    pub requested_time: int,
    /// How many bytes behind the current position are kept.
    pub limit: u64,
    /// What went wrong.
    pub error: Option<AsyncHttpRangeReaderError>,
    /// The position that the open response has come to.
    pub position: Option<u64>,
    /// The ranges that are still to be taken up.
    pub pending: Seq<(u64, u64)>,
    /// What the task is at.
    pub phase: Phase,
}

impl View for Streamer {
    type V = Progress;

    open spec fn view(&self) -> Progress {
        Progress {
            requested: self.state.requested_ranges.entries(),
            coming: self.state.coming_ranges.entries(),
            taken_requests: self.state.taken_requests as int,
            requested_time: self.state.requested_time as int,
            limit: self.state.backward_memory_limit,
            error: self.state.error,
            position: self.position,
            pending: self.listed().skip(self.taken as int),
            phase: self.phase,
        }
    }
}

/// The `Range` header that asks for all bytes from `start` on.
pub open spec fn range_header(start: u64) -> Seq<char> {
    "bytes="@ + decimal::decimal(start as nat) + "-"@
}

/// The next range is taken up. The open response serves it if it has come to its start, and
/// else a new request is made.
pub open spec fn next_range(p: Progress) -> (Progress, Step) {
    if p.pending.len() == 0 {
        (Progress { phase: Phase::Idle, ..p }, Step::AwaitRequest)
    } else {
        let (start, end) = p.pending[0];
        let q = Progress {
            requested: entries::updated(p.requested, (start..(end + 1) as u64)),
            pending: p.pending.skip(1),
            ..p
        };
        if p.position == Some(start) {
            (
                Progress {
                    phase: Phase::Reading { target: end, protect: start, initial: false },
                    ..q
                },
                Step::ReadChunk,
            )
        } else {
            (
                Progress {
                    requested_time: p.requested_time + 1,
                    phase: Phase::Opening { start, end },
                    ..q
                },
                Step::OpenRange(range_header(start)),
            )
        }
    }
}

/// A response has given what was wanted of it, or has ended. The initial one is given up.
pub open spec fn after_body(p: Progress, initial: bool) -> (Progress, Step) {
    if initial {
        (Progress { position: None, phase: Phase::Idle, ..p }, Step::AwaitRequest)
    } else {
        next_range(p)
    }
}

/// The task ends with an error.
pub open spec fn failed(p: Progress, error: AsyncHttpRangeReaderError) -> (Progress, Step) {
    (Progress { error: Some(error), phase: Phase::Stopped, ..p }, Step::PublishAndStop)
}

/// What the task comes to with an event, where `record` are the entries of what a map of size
/// `len` holds.
pub open spec fn advanced(
    p: Progress,
    event: StreamerEvent,
    record: Seq<(u64, u64)>,
    len: u64,
) -> (Progress, Step) {
    match event {
        StreamerEvent::Started { initial: None } => (
            Progress { phase: Phase::Idle, ..p },
            Step::AwaitRequest,
        ),
        StreamerEvent::Started { initial: Some(start) } => (
            Progress {
                requested: entries::updated(p.requested, (start..len)),
                coming: entries::updated(p.coming, (start..len)),
                requested_time: p.requested_time + 1,
                position: Some(start),
                phase: Phase::Reading {
                    target: (len - 1) as u64,
                    protect: start,
                    initial: true,
                },
                ..p
            },
            Step::ReadChunk,
        ),
        StreamerEvent::Requested { range } => next_range(
            Progress {
                coming: entries::updated(p.coming, range),
                taken_requests: p.taken_requests + 1,
                pending: entries::gaps(record, range.start as int, range.end - 1),
                ..p
            },
        ),
        StreamerEvent::RequestsClosed => (
            Progress { phase: Phase::Stopped, ..p },
            Step::Stop,
        ),
        StreamerEvent::Opened { partial } => match p.phase {
            Phase::Opening { start, end } => if start != 0 && !partial {
                failed(p, AsyncHttpRangeReaderError::HttpRangeRequestUnsupported)
            } else {
                (
                    Progress {
                        position: Some(start),
                        phase: Phase::Reading { target: end, protect: start, initial: false },
                        ..p
                    },
                    Step::ReadChunk,
                )
            },
            _ => (p, Step::Stop),
        },
        StreamerEvent::OpenFailed { message } => failed(
            p,
            AsyncHttpRangeReaderError::IoError(message),
        ),
        StreamerEvent::Chunk { bytes } => match (p.phase, p.position) {
            (Phase::Reading { target, protect, initial }, Some(position)) => (
                Progress {
                    coming: fed_coming(p, event, record, len),
                    position: Some((position + buffer::content(bytes).len()) as u64),
                    phase: Phase::Telling { target, protect, initial },
                    ..p
                },
                Step::Publish,
            ),
            _ => (p, Step::Stop),
        },
        StreamerEvent::BodyEnded => match (p.phase, p.position) {
            // What the response has not given is not coming any more.
            (Phase::Reading { target, initial, .. }, Some(position)) => after_body(
                Progress {
                    coming: entries::without_all(
                        p.coming,
                        entries::gaps(record, position as int, target as int),
                    ),
                    ..p
                },
                initial,
            ),
            _ => (p, Step::Stop),
        },
        StreamerEvent::BodyFailed { message } => failed(
            p,
            AsyncHttpRangeReaderError::TransportError(message),
        ),
        StreamerEvent::Published { delivered } => match (p.phase, p.position) {
            (Phase::Telling { target, protect, initial }, Some(position)) => if !delivered {
                (Progress { phase: Phase::Stopped, ..p }, Step::Stop)
            } else if position <= target {
                (
                    Progress { phase: Phase::Reading { target, protect, initial }, ..p },
                    Step::ReadChunk,
                )
            } else {
                after_body(p, initial)
            },
            _ => (p, Step::Stop),
        },
    }
}

/// Whether the event can come where the task is, and can be counted.
pub open spec fn acceptable(p: Progress, event: StreamerEvent, len: u64) -> bool {
    match event {
        StreamerEvent::Started { initial } => {
            &&& p.phase is Idle
            &&& initial matches Some(start) ==> start < len && p.requested_time < usize::MAX
        },
        StreamerEvent::Requested { range } => {
            &&& p.phase is Idle
            &&& p.requested_time < usize::MAX
            &&& p.taken_requests < u64::MAX
            &&& range.start <= range.end
            &&& 1 <= range.end
        },
        StreamerEvent::RequestsClosed => p.phase is Idle,
        StreamerEvent::Opened { .. } => p.phase is Opening,
        StreamerEvent::OpenFailed { .. } => p.phase is Opening,
        StreamerEvent::Chunk { bytes } => {
            &&& p.phase is Reading
            &&& p.position matches Some(position) ==> {
                &&& position + buffer::content(bytes).len() <= u64::MAX
                &&& position == 0 ==> len > 0 && buffer::content(bytes).len() > 0
            }
        },
        StreamerEvent::BodyEnded => p.phase is Reading && p.requested_time < usize::MAX,
        StreamerEvent::BodyFailed { .. } => p.phase is Reading,
        StreamerEvent::Published { .. } => p.phase is Telling && p.requested_time < usize::MAX,
    }
}

/// What a map holds after an event: the bytes of a response, and nothing outside the zone that
/// is kept.
pub open spec fn fed(
    p: Progress,
    event: StreamerEvent,
    held: Map<int, u8>,
    len: u64,
) -> Map<int, u8> {
    match (event, p.phase, p.position) {
        (
            StreamerEvent::Chunk { bytes },
            Phase::Reading { protect, .. },
            Some(position),
        ) if position <= len => {
            let new = memory_map::fitting(buffer::content(bytes), position as int, len as int);
            chunks::between(
                chunks::placed(held, position as int, new),
                memory_map::zone_start(protect, p.limit) as int,
                position + new.len(),
            )
        },
        _ => held,
    }
}

/// The entries of what a map holds after an event.
pub open spec fn fed_record(
    p: Progress,
    event: StreamerEvent,
    record: Seq<(u64, u64)>,
    len: u64,
) -> Seq<(u64, u64)> {
    match (event, p.phase, p.position) {
        (
            StreamerEvent::Chunk { bytes },
            Phase::Reading { protect, .. },
            Some(position),
        ) if position <= len => {
            let new = memory_map::fitting(buffer::content(bytes), position as int, len as int);
            let end = (position + new.len()) as u64;
            entries::confined(
                entries::updated(record, (position..end)),
                (memory_map::zone_start(protect, p.limit)..end),
            )
        },
        _ => record,
    }
}

/// The entries of what is held or still to come after an event. The bytes of a response are
/// held, and what is freed for them is gone.
pub open spec fn fed_coming(
    p: Progress,
    event: StreamerEvent,
    record: Seq<(u64, u64)>,
    len: u64,
) -> Seq<(u64, u64)> {
    match (event, p.phase, p.position) {
        (
            StreamerEvent::Chunk { bytes },
            Phase::Reading { protect, .. },
            Some(position),
        ) if position <= len => {
            let new = memory_map::fitting(buffer::content(bytes), position as int, len as int);
            let end = (position + new.len()) as u64;
            entries::without_all(
                entries::updated(p.coming, (position..end)),
                entries::freed(
                    entries::updated(record, (position..end)),
                    memory_map::zone_start(protect, p.limit),
                    (end - 1) as u64,
                ),
            )
        },
        _ => p.coming,
    }
}

impl Progress {
    /// What holds wherever the task is.
    pub open spec fn valid(&self) -> bool {
        &&& entries::ordered(self.requested)
        &&& entries::ordered(self.coming)
        &&& entries::ordered(self.pending)
        &&& entries::inhabited(self.pending)
        &&& match self.phase {
            Phase::Idle => self.pending.len() == 0,
            Phase::Opening { start, end } => start <= end < u64::MAX,
            Phase::Reading { target, protect, initial } => {
                &&& self.position matches Some(position) && protect <= position <= target
                &&& target < u64::MAX
                &&& initial ==> self.pending.len() == 0
            },
            Phase::Telling { target, protect, initial } => {
                &&& self.position matches Some(position) && protect <= position
                &&& target < u64::MAX
                &&& initial ==> self.pending.len() == 0
            },
            Phase::Stopped => true,
        }
    }
}

impl Streamer {
    /// The ranges that were missing.
    pub open spec fn listed(&self) -> Seq<(u64, u64)> {
        Seq::new(
            self.missing@.len(),
            |i: int| (self.missing@[i]@.start, self.missing@[i]@.end),
        )
    }

    /// Whether position and ranges are what the phase asks for.
    pub open spec fn stands(&self) -> bool {
        match self.phase {
            Phase::Idle => self.taken == self.missing@.len(),
            Phase::Opening { start, end } => start <= end < u64::MAX,
            Phase::Reading { target, protect, initial } => {
                &&& self.position matches Some(position) && protect <= position <= target
                &&& target < u64::MAX
                &&& initial ==> self.taken == self.missing@.len()
            },
            Phase::Telling { target, protect, initial } => {
                &&& self.position matches Some(position) && protect <= position
                &&& target < u64::MAX
                &&& initial ==> self.taken == self.missing@.len()
            },
            Phase::Stopped => true,
        }
    }

    /// The progress of the task is valid.
    pub proof fn law_progress_is_valid(&self)
        requires
            self.wf(),
        ensures
            self@.valid(),
    {
        self.state.requested_ranges.law_entries_are_ordered();
        self.state.coming_ranges.law_entries_are_ordered();
        let (all, rest) = (self.listed(), self@.pending);
        assert forall|i: int| 0 <= i < rest.len() implies rest[i] == all[self.taken + i] by {}
    }

    /// Whether the parts are sound, wherever the task is.
    pub open spec fn sound(&self) -> bool {
        &&& self.state.wf()
        &&& self.taken <= self.missing@.len()
        &&& entries::lists(self.missing@, self.listed())
        &&& entries::ordered(self.listed())
        &&& entries::inhabited(self.listed())
    }

    /// The invariant.
    pub open spec fn wf(&self) -> bool {
        self.sound() && self.stands()
    }

    /// Whether the task can take an event, with a map of size `len`.
    pub fn accepts(&self, event: &StreamerEvent, len: u64) -> (r: bool)
        requires
            self.wf(),
        ensures
            r == acceptable(self@, *event, len),
    {
        let countable = self.state.requested_time < usize::MAX;
        let untaken = self.state.taken_requests < u64::MAX;
        match (event, self.phase) {
            (StreamerEvent::Started { initial }, Phase::Idle) => match initial {
                Some(start) => *start < len && countable,
                None => true,
            },
            (StreamerEvent::Requested { range }, Phase::Idle) => countable && untaken
                && range.start <= range.end && 1 <= range.end,
            (StreamerEvent::RequestsClosed, Phase::Idle) => true,
            (StreamerEvent::Opened { .. }, Phase::Opening { .. }) => true,
            (StreamerEvent::OpenFailed { .. }, Phase::Opening { .. }) => true,
            (StreamerEvent::Chunk { bytes }, Phase::Reading { .. }) => match self.position {
                Some(position) => {
                    let n: u64 = bytes_len(bytes) as u64;
                    n <= u64::MAX - position && (position > 0 || (len > 0 && n > 0))
                },
                None => true,
            },
            (StreamerEvent::BodyEnded, Phase::Reading { .. }) => countable,
            (StreamerEvent::BodyFailed { .. }, Phase::Reading { .. }) => true,
            (StreamerEvent::Published { .. }, Phase::Telling { .. }) => countable,
            _ => false,
        }
    }

    /// A task that has done nothing yet.
    pub fn new() -> (r: Self)
        ensures
            r.wf(),
            r@.requested == Seq::<(u64, u64)>::empty(),
            r@.coming == Seq::<(u64, u64)>::empty(),
            r@.taken_requests == 0,
            r@.requested_time == 0,
            r@.limit == crate::state::BACKWARD_MEMORY_LIMIT,
            r@.error is None,
            r@.position is None,
            r@.pending == Seq::<(u64, u64)>::empty(),
            r@.phase is Idle,
    {
        let r = Streamer {
            state: StreamerState::default(),
            position: None,
            missing: Vec::new(),
            taken: 0,
            phase: Phase::Idle,
        };
        proof {
            assert(r@.pending =~= Seq::<(u64, u64)>::empty());
        }
        r
    }

    /// Takes up the next range.
    fn next_range(&mut self) -> (action: StreamerAction)
        requires
            old(self).sound(),
            old(self).state.requested_time < usize::MAX,
        ensures
            final(self).wf(),
            (final(self)@, action@) == next_range(old(self)@),
    {
        let ghost p = self@;
        if self.taken == self.missing.len() {
            self.phase = Phase::Idle;
            return StreamerAction::AwaitRequest;
        }
        let start: u64 = *self.missing[self.taken].start();
        let end: u64 = *self.missing[self.taken].end();
        proof {
            assert(self.listed()[self.taken as int] == (start, end));
            assert(p.pending[0] == (start, end));
        }
        self.taken = self.taken + 1;
        assert(self@.pending =~= p.pending.skip(1));
        self.state.requested_ranges.update(start..end + 1);
        let reusable = match self.position {
            Some(position) => position == start,
            None => false,
        };
        if reusable {
            self.phase = Phase::Reading { target: end, protect: start, initial: false };
            StreamerAction::ReadChunk
        } else {
            self.state.requested_time = self.state.requested_time + 1;
            self.phase = Phase::Opening { start, end };
            let mut header = String::from_str("bytes=");
            push_decimal(&mut header, start);
            header.append("-");
            StreamerAction::OpenRange(header)
        }
    }

    /// Goes on when a response has given what was wanted of it, or has ended.
    fn after_body(&mut self, initial: bool) -> (action: StreamerAction)
        requires
            old(self).wf(),
            initial ==> old(self).taken == old(self).missing@.len(),
            old(self).state.requested_time < usize::MAX,
        ensures
            final(self).wf(),
            (final(self)@, action@) == after_body(old(self)@, initial),
    {
        if initial {
            self.phase = Phase::Idle;
            self.position = None;
            StreamerAction::AwaitRequest
        } else {
            self.next_range()
        }
    }

    /// Ends with an error.
    fn fail(&mut self, error: AsyncHttpRangeReaderError) -> (action: StreamerAction)
        requires
            old(self).wf(),
        ensures
            final(self).wf(),
            (final(self)@, action@) == failed(old(self)@, error),
    {
        self.state.error = Some(error);
        self.phase = Phase::Stopped;
        StreamerAction::PublishAndStop
    }

    /// Streams the data of a response to the memory map.
    ///
    /// A response is read from its position until the target is reached. The position can come
    /// to lie behind the target if the server returns more data than needed.
    pub fn stream_response(&mut self, map: &mut MemoryMap, bytes: Bytes) -> (action: StreamerAction)
        requires
            old(self).wf(),
            old(map).wf(),
            acceptable(old(self)@, StreamerEvent::Chunk { bytes }, old(map).len),
        ensures
            final(self).wf(),
            final(map).wf(),
            final(map).len == old(map).len,
            final(map)@ == fed(
                old(self)@,
                StreamerEvent::Chunk { bytes },
                old(map)@,
                old(map).len,
            ),
            final(map).inner.record.entries() == fed_record(
                old(self)@,
                StreamerEvent::Chunk { bytes },
                old(map).inner.record.entries(),
                old(map).len,
            ),
            (final(self)@, action@) == advanced(
                old(self)@,
                StreamerEvent::Chunk { bytes },
                old(map).inner.record.entries(),
                old(map).len,
            ),
            final(self).position matches Some(position) && position
                == old(self).position.unwrap() + buffer::content(bytes).len(),
            forall|x: int|
                old(self).position.unwrap() <= x < final(self).position.unwrap() && x < old(map).len
                    ==> #[trigger] final(map)@.contains_key(x),
            forall|x: int| #[trigger]
                final(map)@.contains_key(x) && !old(map)@.contains_key(x) ==> old(
                    self,
                ).position.unwrap() <= x && final(map)@[x] == buffer::content(bytes)[x - old(
                    self,
                ).position.unwrap()],
            forall|x: int| #[trigger]
                final(map)@.contains_key(x) && old(map)@.contains_key(x) ==> final(map)@[x] == old(
                    map,
                )@[x],
            action is Publish,
    {
        if let Phase::Reading { target, protect, initial } = self.phase {
            if let Some(position) = self.position {
                // Determine the end of these bytes in the complete file.
                let end: u64 = position + bytes_len(&bytes) as u64;
                let ghost p = self@;
                let ghost record = map.inner.record.entries();
                let stop: u64 = if end < map.len() {
                    end
                } else {
                    map.len()
                };
                let inside = position <= map.len();
                proof {
                    map.inner.record.law_entries_are_ordered();
                    if inside {
                        entries::law_cover_adds_the_range(record, (position..stop));
                        entries::law_entries_stay_inhabited(record, (position..stop));
                        entries::lemma_kept(
                            entries::updated(record, (position..stop)),
                            memory_map::zone_start(protect, p.limit),
                            (stop - 1) as u64,
                        );
                    }
                }
                let freed = map.store_and_list_freed(
                    position,
                    bytes,
                    protect,
                    self.state.backward_memory_limit,
                );
                if inside {
                    // These bytes are here, and what was freed for them is not coming any more.
                    self.state.coming_ranges.update(position..stop);
                    self.state.coming_ranges.remove_all(
                        &freed,
                        Ghost(
                            entries::freed(
                                entries::updated(record, (position..stop)),
                                memory_map::zone_start(protect, p.limit),
                                (stop - 1) as u64,
                            ),
                        ),
                    );
                }
                // Update the offset.
                self.position = Some(end);
                // Notify anyone that's listening that we have downloaded some extra data.
                self.phase = Phase::Telling { target, protect, initial };
                return StreamerAction::Publish;
            }
        }
        StreamerAction::Stop
    }

    /// Decides how the task goes on.
    ///
    /// It downloads parts from the remote archive and puts them into the map as they become
    /// available.
    pub fn run_streamer(&mut self, map: &mut MemoryMap, event: StreamerEvent) -> (action:
        StreamerAction)
        requires
            old(self).wf(),
            old(map).wf(),
            acceptable(old(self)@, event, old(map).len),
        ensures
            final(self).wf(),
            final(map).wf(),
            final(map).len == old(map).len,
            final(map)@ == fed(old(self)@, event, old(map)@, old(map).len),
            final(map).inner.record.entries() == fed_record(
                old(self)@,
                event,
                old(map).inner.record.entries(),
                old(map).len,
            ),
            !(event is Chunk) ==> *final(map) == *old(map),
            (final(self)@, action@) == advanced(
                old(self)@,
                event,
                old(map).inner.record.entries(),
                old(map).len,
            ),
    {
        let ghost p = self@;
        match event {
            StreamerEvent::Started { initial: None } => {
                self.phase = Phase::Idle;
                StreamerAction::AwaitRequest
            },
            StreamerEvent::Started { initial: Some(start) } => {
                // Add the initial range to the state.
                self.state.requested_ranges.update(start..map.len());
                self.state.coming_ranges.update(start..map.len());
                self.state.requested_time = self.state.requested_time + 1;
                // Stream the initial data in memory.
                self.position = Some(start);
                self.phase = Phase::Reading {
                    target: map.len() - 1,
                    protect: start,
                    initial: true,
                };
                StreamerAction::ReadChunk
            },
            StreamerEvent::Requested { range } => {
                // Determine the range that we need to cover.
                let ghost record = map.inner.record.entries();
                let ghost gaps = entries::gaps(record, range.start as int, range.end - 1);
                proof {
                    map.inner.record.law_entries_are_ordered();
                    entries::lemma_gaps_ordered(
                        record,
                        range.start as int,
                        range.end - 1,
                        record.len() + 1,
                    );
                }
                self.state.coming_ranges.update(range.start..range.end);
                self.state.taken_requests = self.state.taken_requests + 1;
                self.missing = match map.inner.record.cover(range) {
                    Some((_, missing)) => missing,
                    None => Vec::new(),
                };
                self.taken = 0;
                assert(self.listed() =~= gaps);
                assert(self@.pending =~= gaps);
                self.next_range()
            },
            StreamerEvent::RequestsClosed => {
                self.phase = Phase::Stopped;
                StreamerAction::Stop
            },
            StreamerEvent::Opened { partial } => {
                if let Phase::Opening { start, end } = self.phase {
                    // If the server returns a successful response without the part that was
                    // asked for, then it doesn't support range requests, except for the case
                    // where the part is the whole file.
                    if start != 0 && !partial {
                        return self.fail(AsyncHttpRangeReaderError::HttpRangeRequestUnsupported);
                    }
                    self.position = Some(start);
                    self.phase = Phase::Reading { target: end, protect: start, initial: false };
                    return StreamerAction::ReadChunk;
                }
                StreamerAction::Stop
            },
            StreamerEvent::OpenFailed { message } => {
                self.fail(AsyncHttpRangeReaderError::IoError(message))
            },
            StreamerEvent::Chunk { bytes } => self.stream_response(map, bytes),
            StreamerEvent::BodyEnded => {
                if let Phase::Reading { target, initial, .. } = self.phase {
                    if let Some(position) = self.position {
                        // What the response has not given is not coming any more.
                        let ghost record = map.inner.record.entries();
                        let ghost gaps = entries::gaps(record, position as int, target as int);
                        proof {
                            map.inner.record.law_entries_are_ordered();
                            entries::lemma_gaps_ordered(
                                record,
                                position as int,
                                target as int,
                                record.len() + 1,
                            );
                        }
                        if let Some((_, missing)) = map.inner.record.cover(position..target + 1) {
                            self.state.coming_ranges.remove_all(&missing, Ghost(gaps));
                        }
                        return self.after_body(initial);
                    }
                }
                StreamerAction::Stop
            },
            StreamerEvent::BodyFailed { message } => {
                self.fail(AsyncHttpRangeReaderError::TransportError(message))
            },
            StreamerEvent::Published { delivered } => {
                if let Phase::Telling { target, protect, initial } = self.phase {
                    if let Some(position) = self.position {
                        if !delivered {
                            // There is no receiver, so we should just exit.
                            self.phase = Phase::Stopped;
                            return StreamerAction::Stop;
                        }
                        if position <= target {
                            self.phase = Phase::Reading { target, protect, initial };
                            return StreamerAction::ReadChunk;
                        }
                        return self.after_body(initial);
                    }
                }
                StreamerAction::Stop
            },
        }
    }
}

/// What was requested stays requested, and a range that is taken up is requested from then on.
pub proof fn law_requests_are_recorded(
    p: Progress,
    event: StreamerEvent,
    record: Seq<(u64, u64)>,
    len: u64,
    x: int,
)
    requires
        acceptable(p, event, len),
        p.valid(),
        entries::ordered(record),
    ensures
        ({
            let (q, step) = advanced(p, event, record, len);
            &&& entries::holds(p.requested, x) ==> entries::holds(q.requested, x)
            &&& q.phase matches Phase::Opening { start, end } ==> (start <= x <= end
                ==> entries::holds(q.requested, x))
            &&& event is Requested ==> (q.phase matches Phase::Reading { target, protect, .. } ==> (
            protect <= x <= target ==> entries::holds(q.requested, x)))
            &&& event matches StreamerEvent::Started { initial: Some(start) } ==> (start <= x
                < len ==> entries::holds(q.requested, x))
        }),
{
    let (q, step) = advanced(p, event, record, len);
    let pending = match event {
        StreamerEvent::Requested { range } => entries::gaps(
            record,
            range.start as int,
            range.end - 1,
        ),
        _ => p.pending,
    };
    if let StreamerEvent::Requested { range } = event {
        entries::lemma_gaps_ordered(record, range.start as int, range.end - 1, record.len() + 1);
    }
    if pending.len() > 0 {
        assert(pending[0].0 <= pending[0].1 < u64::MAX);
        entries::law_cover_adds_the_range(
            p.requested,
            (pending[0].0..(pending[0].1 + 1) as u64),
        );
    }
    if let StreamerEvent::Started { initial: Some(start) } = event {
        entries::law_cover_adds_the_range(p.requested, (start..len));
    }
}

/// The requests that are counted are the ones that are made: the initial one, if its response
/// is there to be read, and each one that is sent.
pub proof fn law_requests_are_counted(
    p: Progress,
    event: StreamerEvent,
    record: Seq<(u64, u64)>,
    len: u64,
)
    ensures
        ({
            let (q, step) = advanced(p, event, record, len);
            q.requested_time == p.requested_time + (if step is OpenRange
                || event matches StreamerEvent::Started { initial: Some(_) } {
                1int
            } else {
                0
            })
        }),
{
}

/// A request for a range that is held makes no HTTP request, and one for another range makes a
/// request from its first byte that is not held, unless the open response has come to it.
pub proof fn law_only_missing_bytes_are_requested(
    p: Progress,
    range: Range<u64>,
    record: Seq<(u64, u64)>,
    len: u64,
)
    requires
        entries::ordered(record),
        range.start <= range.end,
        1 <= range.end,
    ensures
        ({
            let (q, step) = advanced(p, StreamerEvent::Requested { range }, record, len);
            let complete = forall|x: int|
                range.start <= x < range.end ==> #[trigger] entries::holds(record, x);
            &&& complete <==> step is AwaitRequest
            &&& !complete ==> exists|first: u64| #[trigger]
                begins_missing(record, range, first) && (if p.position == Some(first) {
                    step is ReadChunk
                } else {
                    step == Step::OpenRange(range_header(first))
                })
        }),
{
    let last = range.end - 1;
    let g = entries::gaps(record, range.start as int, last);
    entries::lemma_gaps_empty(record, range.start as int, last);
    if g.len() > 0 {
        entries::lemma_gaps_ordered(record, range.start as int, last, record.len() + 1);
        let first = g[0].0;
        assert(entries::holds(g, first as int)) by {
            assert(g[0].0 <= first <= g[0].1);
        }
        entries::law_gaps_are_what_is_missing(record, range.start as int, last, first as int);
        assert forall|x: int| range.start <= x < first implies #[trigger] entries::holds(
            record,
            x,
        ) by {
            entries::law_gaps_are_what_is_missing(record, range.start as int, last, x);
            if entries::holds(g, x) {
                let i = choose|i: int| 0 <= i < g.len() && (#[trigger] g[i]).0 <= x <= g[i].1;
                if i > 0 {
                    assert(g[0].1 < g[i].0);
                }
            }
        }
        assert(begins_missing(record, range, first));
    }
}

/// Whether `first` is the first value of a range that the entries do not hold.
pub open spec fn begins_missing(record: Seq<(u64, u64)>, range: Range<u64>, first: u64) -> bool {
    &&& range.start <= first < range.end
    &&& !entries::holds(record, first as int)
    &&& forall|x: int| range.start <= x < first ==> #[trigger] entries::holds(record, x)
}

/// As long as the responses hold bytes of the file, from the position on that was asked for, so
/// does the map.
pub proof fn law_the_map_keeps_to_the_file(
    p: Progress,
    event: StreamerEvent,
    held: Map<int, u8>,
    len: u64,
    file: Seq<u8>,
)
    requires
        file.len() == len,
        chunks::agrees(held, file),
        p.position matches Some(position) ==> {
            event matches StreamerEvent::Chunk { bytes } ==> {
                &&& position + buffer::content(bytes).len() <= file.len()
                &&& buffer::content(bytes) == file.subrange(
                    position as int,
                    position + buffer::content(bytes).len(),
                )
            }
        },
    ensures
        chunks::agrees(fed(p, event, held, len), file),
{
    if let StreamerEvent::Chunk { bytes } = event {
        if let Phase::Reading { protect, .. } = p.phase {
            if let Some(position) = p.position {
                let new = buffer::content(bytes);
                chunks::law_placing_keeps_to_the_file(
                    held,
                    position as int,
                    new,
                    memory_map::zone_start(protect, p.limit) as int,
                    position + new.len(),
                    file,
                );
            }
        }
    }
}

/// The bytes that a response has gone on with are held afterwards, as far as they fit, and so
/// are those that were held from the start of the response on and up to them.
pub proof fn law_streamed_bytes_are_held(
    p: Progress,
    bytes: Bytes,
    held: Map<int, u8>,
    len: u64,
    x: int,
)
    requires
        p.phase matches Phase::Reading { protect, .. } && p.position matches Some(position)
            && protect <= position <= len,
        ({
            let position = p.position.unwrap();
            let end = position + memory_map::fitting(
                buffer::content(bytes),
                position as int,
                len as int,
            ).len();
            &&& p.phase->Reading_protect <= x < end
            &&& x < position ==> held.contains_key(x)
        }),
    ensures
        fed(p, StreamerEvent::Chunk { bytes }, held, len).contains_key(x),
        held.contains_key(x) ==> fed(p, StreamerEvent::Chunk { bytes }, held, len)[x] == held[x],
        !held.contains_key(x) ==> fed(p, StreamerEvent::Chunk { bytes }, held, len)[x]
            == buffer::content(bytes)[x - p.position.unwrap()],
{
}

/// The task takes no event once it is over.
pub proof fn law_nothing_follows_the_end(p: Progress, event: StreamerEvent, len: u64)
    requires
        p.phase is Stopped,
    ensures
        !acceptable(p, event, len),
{
}

/// The task ends by itself only with an error, or when nobody listens or asks any more.
pub proof fn law_why_the_task_ends(
    p: Progress,
    event: StreamerEvent,
    record: Seq<(u64, u64)>,
    len: u64,
)
    requires
        acceptable(p, event, len),
        p.valid(),
    ensures
        ({
            let (q, step) = advanced(p, event, record, len);
            &&& q.phase is Stopped <==> step is Stop || step is PublishAndStop
            &&& step is PublishAndStop ==> q.error is Some
            &&& step is Stop ==> event is RequestsClosed || event == (StreamerEvent::Published {
                delivered: false,
            })
            &&& !(step is PublishAndStop) ==> q.error == p.error
        }),
{
}

/// The `Range` header tells from which byte on the file is asked for.
pub proof fn law_headers_tell_positions_apart(a: u64, b: u64)
    ensures
        range_header(a) == range_header(b) ==> a == b,
{
    reveal_strlit("bytes=");
    reveal_strlit("-");
    let (x, y) = (decimal::decimal(a as nat), decimal::decimal(b as nat));
    if range_header(a) == range_header(b) {
        assert(range_header(a).subrange(6, range_header(a).len() - 1) =~= x);
        assert(range_header(b).subrange(6, range_header(b).len() - 1) =~= y);
        decimal::law_digits_stand_for_their_number(a as nat);
        decimal::law_digits_stand_for_their_number(b as nat);
    }
}

/// Whether a response that is being read has filled the map from where it began to be read up
/// to its position.
pub open spec fn filled(p: Progress, held: Map<int, u8>, len: u64) -> bool {
    match (p.phase, p.position) {
        (Phase::Reading { protect, .. }, Some(position)) => chunks::holds_all(
            held,
            protect as int,
            if position < len {
                position as int
            } else {
                len as int
            },
        ),
        (Phase::Telling { protect, .. }, Some(position)) => chunks::holds_all(
            held,
            protect as int,
            if position < len {
                position as int
            } else {
                len as int
            },
        ),
        _ => true,
    }
}

/// Whatever comes, a response that is being read has filled the map up to its position. So all
/// of a range is held when the position has come behind it.
pub proof fn law_responses_fill_the_map(
    p: Progress,
    event: StreamerEvent,
    held: Map<int, u8>,
    record: Seq<(u64, u64)>,
    len: u64,
)
    requires
        acceptable(p, event, len),
        p.valid(),
        filled(p, held, len),
    ensures
        filled(advanced(p, event, record, len).0, fed(p, event, held, len), len),
        p.phase matches Phase::Telling { target, protect, .. } ==> p.position matches Some(
            position,
        ) ==> position > target && target < len ==> chunks::holds_all(
            held,
            protect as int,
            target + 1,
        ),
{
    if let StreamerEvent::Chunk { bytes } = event {
        let (q, step) = advanced(p, event, record, len);
        let after = fed(p, event, held, len);
        let position = p.position.unwrap();
        let protect = p.phase->Reading_protect;
        let end = q.position.unwrap();
        assert forall|x: int| protect <= x < end && x < len implies #[trigger] after.contains_key(
            x,
        ) by {
            if x < position {
                assert(held.contains_key(x));
            }
        }
    }
}

/// After each piece of a response the map holds no more than what the response has given, and
/// what may be kept behind it.
pub proof fn law_memory_is_bounded(p: Progress, bytes: Bytes, held: Map<int, u8>, len: u64)
    requires
        p.phase matches Phase::Reading { protect, .. } && p.position matches Some(position)
            && protect <= position <= len,
    ensures
        ({
            let after = fed(p, StreamerEvent::Chunk { bytes }, held, len);
            &&& after.dom().finite()
            &&& after.dom().len() <= p.limit + (p.position.unwrap() - p.phase->Reading_protect)
                + buffer::content(bytes).len()
        }),
{
    let position = p.position.unwrap();
    let start = memory_map::zone_start(p.phase->Reading_protect, p.limit) as int;
    let end = position + memory_map::fitting(
        buffer::content(bytes),
        position as int,
        len as int,
    ).len();
    let zone = vstd::set_lib::set_int_range(start, end);
    vstd::set_lib::lemma_int_range(start, end);
    let after = fed(p, StreamerEvent::Chunk { bytes }, held, len);
    assert(after.dom().subset_of(zone));
    vstd::set_lib::lemma_len_subset(after.dom(), zone);
}

/// Whether a byte is held, lies in the range that is requested or read, or in one that is still
/// to be taken up.
pub open spec fn accounted_for(p: Progress, held: Map<int, u8>, x: int) -> bool {
    ||| held.contains_key(x)
    ||| entries::holds(p.pending, x)
    ||| match (p.phase, p.position) {
        (Phase::Opening { start, end }, _) => start <= x <= end,
        (Phase::Reading { target, .. }, Some(position)) => position <= x <= target,
        (Phase::Telling { target, .. }, Some(position)) => position <= x <= target,
        _ => false,
    }
}

/// Whether each byte of the file that counts as coming is accounted for.
pub open spec fn all_accounted_for(p: Progress, held: Map<int, u8>, len: u64) -> bool {
    forall|x: int| 0 <= x < len && #[trigger] entries::holds(p.coming, x) ==> accounted_for(p, held, x)
}

/// Whether each byte that is held counts as coming.
pub open spec fn all_held_counted(p: Progress, held: Map<int, u8>) -> bool {
    forall|x: int| #[trigger] held.contains_key(x) ==> entries::holds(p.coming, x)
}

/// Taking up the next range leaves no byte unaccounted for.
proof fn lemma_next_range_accounts(p: Progress, held: Map<int, u8>, len: u64)
    requires
        entries::ordered(p.pending),
        forall|x: int|
            0 <= x < len && #[trigger] entries::holds(p.coming, x) ==> held.contains_key(x)
                || entries::holds(p.pending, x),
    ensures
        all_accounted_for(next_range(p).0, held, len),
        next_range(p).0.coming == p.coming,
{
    let (q, step) = next_range(p);
    assert forall|x: int| 0 <= x < len && #[trigger] entries::holds(
        q.coming,
        x,
    ) implies accounted_for(q, held, x) by {
        if !held.contains_key(x) {
            let i = choose|i: int|
                0 <= i < p.pending.len() && (#[trigger] p.pending[i]).0 <= x <= p.pending[i].1;
            if i > 0 {
                assert(q.pending[i - 1] == p.pending[i]);
            }
        }
    }
}

/// Whatever comes, each byte that counts as coming is held, lies in the range that is requested
/// or read, or lies in one that is still to be taken up, until the task is over. And what is
/// held counts as coming.
pub proof fn law_what_is_coming_is_accounted_for(
    p: Progress,
    event: StreamerEvent,
    held: Map<int, u8>,
    record: Seq<(u64, u64)>,
    len: u64,
)
    requires
        acceptable(p, event, len),
        p.valid(),
        entries::ordered(record),
        forall|x: int| #[trigger] entries::holds(record, x) <==> held.contains_key(x),
        all_accounted_for(p, held, len),
        all_held_counted(p, held),
    ensures
        ({
            let (q, step) = advanced(p, event, record, len);
            let after = fed(p, event, held, len);
            &&& !(q.phase is Stopped) ==> all_accounted_for(q, after, len)
            &&& all_held_counted(q, after)
        }),
{
    let (q, step) = advanced(p, event, record, len);
    let after = fed(p, event, held, len);
    match event {
        StreamerEvent::Started { initial: Some(start) } => {
            entries::law_cover_adds_the_range(p.coming, (start..len));
        },
        StreamerEvent::Requested { range } => {
            let gaps = entries::gaps(record, range.start as int, range.end - 1);
            entries::law_cover_adds_the_range(p.coming, range);
            entries::law_missing_ranges_do_not_touch(record, range);
            let r = Progress {
                coming: entries::updated(p.coming, range),
                taken_requests: p.taken_requests + 1,
                pending: gaps,
                ..p
            };
            assert forall|x: int| 0 <= x < len && #[trigger] entries::holds(
                r.coming,
                x,
            ) implies held.contains_key(x) || entries::holds(gaps, x) by {
                entries::law_gaps_are_what_is_missing(
                    record,
                    range.start as int,
                    range.end - 1,
                    x,
                );
                if entries::holds(p.coming, x) {
                    assert(accounted_for(p, held, x));
                }
            }
            lemma_next_range_accounts(r, held, len);
        },
        StreamerEvent::Chunk { bytes } => {
            lemma_chunk_accounts(p, bytes, held, record, len);
        },
        StreamerEvent::BodyEnded => {
            let position = p.position.unwrap();
            let target = p.phase->Reading_target;
            let gaps = entries::gaps(record, position as int, target as int);
            entries::law_missing_ranges_do_not_touch(record, (position..(target + 1) as u64));
            entries::law_taking_out_all(p.coming, gaps);
            let r = Progress { coming: entries::without_all(p.coming, gaps), ..p };
            assert forall|x: int| 0 <= x < len && #[trigger] entries::holds(
                r.coming,
                x,
            ) implies held.contains_key(x) || entries::holds(r.pending, x) by {
                entries::law_gaps_are_what_is_missing(record, position as int, target as int, x);
                assert(accounted_for(p, held, x));
            }
            assert forall|x: int| #[trigger] held.contains_key(x) implies entries::holds(
                r.coming,
                x,
            ) by {
                entries::law_gaps_are_what_is_missing(record, position as int, target as int, x);
                assert(entries::holds(p.coming, x));
            }
            lemma_next_range_accounts(r, held, len);
        },
        StreamerEvent::Published { delivered } => {
            let position = p.position.unwrap();
            if delivered && position > p.phase->Telling_target {
                assert forall|x: int| 0 <= x < len && #[trigger] entries::holds(
                    p.coming,
                    x,
                ) implies held.contains_key(x) || entries::holds(p.pending, x) by {
                    assert(accounted_for(p, held, x));
                }
                lemma_next_range_accounts(p, held, len);
            } else if delivered {
                assert forall|x: int| 0 <= x < len && #[trigger] entries::holds(
                    q.coming,
                    x,
                ) implies accounted_for(q, after, x) by {
                    assert(accounted_for(p, held, x));
                }
            }
        },
        _ => {
            if !(q.phase is Stopped) {
                assert forall|x: int| 0 <= x < len && #[trigger] entries::holds(
                    q.coming,
                    x,
                ) implies accounted_for(q, after, x) by {
                    assert(accounted_for(p, held, x));
                }
            }
        },
    }
}

/// A piece of a response leaves no byte unaccounted for.
proof fn lemma_chunk_accounts(
    p: Progress,
    bytes: Bytes,
    held: Map<int, u8>,
    record: Seq<(u64, u64)>,
    len: u64,
)
    requires
        acceptable(p, StreamerEvent::Chunk { bytes }, len),
        p.valid(),
        entries::ordered(record),
        forall|x: int| #[trigger] entries::holds(record, x) <==> held.contains_key(x),
        all_accounted_for(p, held, len),
        all_held_counted(p, held),
    ensures
        ({
            let (q, step) = advanced(p, StreamerEvent::Chunk { bytes }, record, len);
            let after = fed(p, StreamerEvent::Chunk { bytes }, held, len);
            &&& all_accounted_for(q, after, len)
            &&& all_held_counted(q, after)
        }),
{
    let event = StreamerEvent::Chunk { bytes };
    let (q, step) = advanced(p, event, record, len);
    let after = fed(p, event, held, len);
    let position = p.position.unwrap();
    let protect = p.phase->Reading_protect;
    if position <= len {
        let new = memory_map::fitting(buffer::content(bytes), position as int, len as int);
        let end = (position + new.len()) as u64;
        let start = memory_map::zone_start(protect, p.limit);
        let merged = entries::updated(record, (position..end));
        entries::law_cover_adds_the_range(record, (position..end));
        entries::law_cover_adds_the_range(p.coming, (position..end));
        entries::lemma_kept(merged, start, (end - 1) as u64);
        entries::law_taking_out_all(
            entries::updated(p.coming, (position..end)),
            entries::freed(merged, start, (end - 1) as u64),
        );
        assert forall|x: int| 0 <= x < len && #[trigger] entries::holds(
            q.coming,
            x,
        ) implies accounted_for(q, after, x) by {
            if !entries::holds(merged, x) {
                assert(entries::holds(p.coming, x));
                assert(accounted_for(p, held, x));
                assert(!entries::holds(record, x));
            } else {
                assert(entries::holds(record, x) || position <= x < end);
                assert(after.contains_key(x));
            }
        }
        assert forall|x: int| #[trigger] after.contains_key(x) implies entries::holds(
            q.coming,
            x,
        ) by {
            assert(held.contains_key(x) || position <= x < end);
            if held.contains_key(x) {
                assert(entries::holds(p.coming, x));
            }
        }
    } else {
        assert forall|x: int| 0 <= x < len && #[trigger] entries::holds(
            q.coming,
            x,
        ) implies accounted_for(q, after, x) by {
            assert(accounted_for(p, held, x));
        }
    }
}

impl Streamer {
    /// The progress tells what the fields hold.
    pub proof fn law_progress_tells_the_fields(&self, i: int)
        requires
            self.wf(),
        ensures
            self@.requested == self.state.requested_ranges.entries(),
            self@.coming == self.state.coming_ranges.entries(),
            self@.taken_requests == self.state.taken_requests,
            self@.requested_time == self.state.requested_time,
            self@.limit == self.state.backward_memory_limit,
            self@.error == self.state.error,
            self@.position == self.position,
            self@.phase == self.phase,
            self@.pending.len() == self.missing@.len() - self.taken,
            0 <= i < self@.pending.len() ==> self@.pending[i].0 == self.missing@[self.taken
                + i]@.start && self@.pending[i].1 == self.missing@[self.taken + i]@.end,
    {
    }
}

/// The steps tell what the actions are.
pub proof fn law_steps_tell_the_actions(action: StreamerAction)
    ensures
        action@ is AwaitRequest <==> action is AwaitRequest,
        action@ is OpenRange <==> action is OpenRange,
        action matches StreamerAction::OpenRange(header) ==> action@ == Step::OpenRange(header@),
        action@ is ReadChunk <==> action is ReadChunk,
        action@ is Publish <==> action is Publish,
        action@ is PublishAndStop <==> action is PublishAndStop,
        action@ is Stop <==> action is Stop,
{
}

/// The `Range` header has the position in digits, between `bytes=` and a hyphen.
pub proof fn law_how_headers_are_written(start: u64)
    ensures
        range_header(start) == seq!['b', 'y', 't', 'e', 's', '='] + decimal::decimal(start as nat)
            + seq!['-'],
        decimal::numeral(range_header(start).subrange(6, range_header(start).len() - 1)) == Some(
            start as nat,
        ),
{
    reveal_strlit("bytes=");
    reveal_strlit("-");
    assert("bytes="@ =~= seq!['b', 'y', 't', 'e', 's', '=']);
    assert("-"@ =~= seq!['-']);
    assert(range_header(start).subrange(6, range_header(start).len() - 1) =~= decimal::decimal(
        start as nat,
    ));
    decimal::law_digits_stand_for_their_number(start as nat);
}

/// Which events can come where the task is.
pub proof fn law_which_events_can_come(p: Progress, event: StreamerEvent, len: u64)
    requires
        p.valid(),
    ensures
        ({
            let countable = p.requested_time < usize::MAX;
            match event {
                StreamerEvent::Started { initial: None } => acceptable(p, event, len)
                    <==> p.phase is Idle,
                StreamerEvent::Started { initial: Some(start) } => acceptable(p, event, len)
                    <==> p.phase is Idle && start < len && countable,
                StreamerEvent::Requested { range } => acceptable(p, event, len)
                    <==> p.phase is Idle && countable && p.taken_requests < u64::MAX && range.start
                    <= range.end && range.end > 0,
                StreamerEvent::RequestsClosed => acceptable(p, event, len) <==> p.phase is Idle,
                StreamerEvent::Opened { partial } => acceptable(p, event, len)
                    <==> p.phase is Opening,
                StreamerEvent::OpenFailed { message } => acceptable(p, event, len)
                    <==> p.phase is Opening,
                StreamerEvent::Chunk { bytes } => acceptable(p, event, len) <==> p.phase is Reading
                    && p.position.unwrap() + buffer::content(bytes).len() <= u64::MAX && (
                p.position.unwrap() > 0 || len > 0 && buffer::content(bytes).len() > 0),
                StreamerEvent::BodyEnded => acceptable(p, event, len) <==> p.phase is Reading
                    && countable,
                StreamerEvent::BodyFailed { message } => acceptable(p, event, len)
                    <==> p.phase is Reading,
                StreamerEvent::Published { delivered } => acceptable(p, event, len)
                    <==> p.phase is Telling && countable,
            }
        }),
{
}

/// A response is read from its position on. With each piece the position goes on by as many bytes
/// as the piece has, whatever the piece and wherever the response stands. Nothing but that and
/// what is coming changes, and it is told.
pub proof fn law_pieces_move_the_position(
    p: Progress,
    bytes: Bytes,
    record: Seq<(u64, u64)>,
    len: u64,
)
    requires
        p.valid(),
        acceptable(p, StreamerEvent::Chunk { bytes }, len),
    ensures
        ({
            let (q, step) = advanced(p, StreamerEvent::Chunk { bytes }, record, len);
            &&& step is Publish
            &&& q.position matches Some(position) && position == p.position.unwrap()
                + buffer::content(bytes).len()
            &&& p.phase matches Phase::Reading { target, protect, initial } && q.phase == (
            Phase::Telling { target, protect, initial })
            &&& q.requested == p.requested
            &&& q.taken_requests == p.taken_requests
            &&& q.requested_time == p.requested_time
            &&& q.limit == p.limit
            &&& q.error == p.error
            &&& q.pending == p.pending
        }),
{
}

/// What a map holds after an event: the bytes of a piece of a response, at the position of the
/// response and within the file, and what was held before. Of both only what lies in the zone is
/// left. It begins the limit before the position from which the response is read, and ends with
/// the piece.
pub proof fn law_what_the_map_holds(
    p: Progress,
    event: StreamerEvent,
    held: Map<int, u8>,
    len: u64,
    x: int,
)
    requires
        p.valid(),
        forall|y: int| #[trigger] held.contains_key(y) ==> 0 <= y < len,
    ensures
        !(event is Chunk && p.phase is Reading) ==> fed(p, event, held, len) == held,
        event matches StreamerEvent::Chunk { bytes } ==> p.phase is Reading ==> {
            let position = p.position.unwrap() as int;
            let protect = p.phase->Reading_protect as int;
            let n = buffer::content(bytes).len() as int;
            let after = fed(p, event, held, len);
            &&& position <= len ==> (after.contains_key(x) <==> {
                &&& held.contains_key(x) || position <= x < len
                &&& protect - p.limit <= x < position + n
            })
            &&& position > len ==> after == held
            &&& after.contains_key(x) && held.contains_key(x) ==> after[x] == held[x]
            &&& after.contains_key(x) && !held.contains_key(x) ==> after[x] == buffer::content(
                bytes,
            )[x - position]
        },
{
}

/// The entries that are told of a map are those of what it holds, after every event.
pub proof fn law_the_record_keeps_to_the_map(
    p: Progress,
    event: StreamerEvent,
    held: Map<int, u8>,
    record: Seq<(u64, u64)>,
    len: u64,
    x: int,
)
    requires
        acceptable(p, event, len),
        p.valid(),
        entries::ordered(record),
        forall|y: int| #[trigger] entries::holds(record, y) <==> held.contains_key(y),
    ensures
        entries::ordered(fed_record(p, event, record, len)),
        entries::holds(fed_record(p, event, record, len), x) <==> fed(
            p,
            event,
            held,
            len,
        ).contains_key(x),
{
    if let StreamerEvent::Chunk { bytes } = event {
        let position = p.position.unwrap();
        if position <= len {
            let new = memory_map::fitting(buffer::content(bytes), position as int, len as int);
            let end = (position + new.len()) as u64;
            let merged = entries::updated(record, (position..end));
            entries::law_cover_adds_the_range(record, (position..end));
            entries::lemma_kept(
                merged,
                memory_map::zone_start(p.phase->Reading_protect, p.limit),
                (end - 1) as u64,
            );
            let given_up = entries::freed(
                merged,
                memory_map::zone_start(p.phase->Reading_protect, p.limit),
                (end - 1) as u64,
            );
            assert(entries::holds(record, x) <==> held.contains_key(x));
            assert(entries::holds(merged, x) <==> entries::holds(record, x) || position <= x < end);
            assert(given_up.len() == 0 ==> !entries::holds(given_up, x));
        }
    }
}

/// What is coming changes with what is taken up, and with what is read. A range that was asked for
/// comes. So does the piece that was read, while what it drove out of the map is not coming any
/// more. Nor is what a response that has ended has not given.
pub proof fn law_what_is_coming(
    p: Progress,
    event: StreamerEvent,
    held: Map<int, u8>,
    record: Seq<(u64, u64)>,
    len: u64,
    x: int,
)
    requires
        acceptable(p, event, len),
        p.valid(),
        entries::ordered(record),
        forall|y: int| #[trigger] entries::holds(record, y) <==> held.contains_key(y),
        forall|y: int| #[trigger] held.contains_key(y) ==> 0 <= y < len,
    ensures
        ({
            let (q, step) = advanced(p, event, record, len);
            let was = entries::holds(p.coming, x);
            let is = entries::holds(q.coming, x);
            &&& event matches StreamerEvent::Started { initial: Some(start) } ==> (is <==> was
                || start <= x < len)
            &&& event matches StreamerEvent::Requested { range } ==> (is <==> was || range.start
                <= x < range.end)
            &&& event matches StreamerEvent::Chunk { bytes } ==> {
                let position = p.position.unwrap() as int;
                let n = buffer::content(bytes).len() as int;
                let given = position <= x < position + n && x < len;
                is <==> (was || given) && ((held.contains_key(x) || given) ==> fed(
                    p,
                    event,
                    held,
                    len,
                ).contains_key(x))
            }
            &&& event is BodyEnded ==> (is <==> was && (held.contains_key(x) || !(
            p.position.unwrap() <= x <= p.phase->Reading_target)))
            &&& event is RequestsClosed || event is Opened || event is OpenFailed
                || event is BodyFailed || event is Published ==> q.coming == p.coming
        }),
{
    let (q, step) = advanced(p, event, record, len);
    assert(entries::holds(record, x) <==> held.contains_key(x));
    match event {
        StreamerEvent::Started { initial: Some(start) } => {
            entries::law_cover_adds_the_range(p.coming, (start..len));
        },
        StreamerEvent::Requested { range } => {
            entries::law_cover_adds_the_range(p.coming, range);
        },
        StreamerEvent::Chunk { bytes } => {
            let position = p.position.unwrap();
            law_what_the_map_holds(p, event, held, len, x);
            if position <= len {
                let new = memory_map::fitting(buffer::content(bytes), position as int, len as int);
                let end = (position + new.len()) as u64;
                let start = memory_map::zone_start(p.phase->Reading_protect, p.limit);
                let merged = entries::updated(record, (position..end));
                entries::law_cover_adds_the_range(record, (position..end));
                entries::law_cover_adds_the_range(p.coming, (position..end));
                entries::lemma_kept(merged, start, (end - 1) as u64);
                entries::law_taking_out_all(
                    entries::updated(p.coming, (position..end)),
                    entries::freed(merged, start, (end - 1) as u64),
                );
                assert(entries::holds(merged, x) <==> entries::holds(record, x) || position <= x
                    < end);
            }
        },
        StreamerEvent::BodyEnded => {
            let (position, target) = (p.position.unwrap(), p.phase->Reading_target);
            entries::law_missing_ranges_do_not_touch(record, (position..(target + 1) as u64));
            entries::law_gaps_are_what_is_missing(record, position as int, target as int, x);
            entries::law_taking_out_all(
                p.coming,
                entries::gaps(record, position as int, target as int),
            );
        },
        _ => {},
    }
}

/// Only what a request was made for counts as requested. After any event a byte was requested
/// before, or lies in the range that was taken up with the event, or in the part of the file that
/// the initial response holds. And all of these count.
pub proof fn law_only_requests_are_recorded(
    p: Progress,
    event: StreamerEvent,
    record: Seq<(u64, u64)>,
    len: u64,
    x: int,
)
    requires
        acceptable(p, event, len),
        p.valid(),
        entries::ordered(record),
    ensures
        ({
            let (q, step) = advanced(p, event, record, len);
            let was = entries::holds(p.requested, x);
            let is = entries::holds(q.requested, x);
            // Whether a range was taken up: a new one is read or asked for.
            let anew = event is Requested || event is BodyEnded || event is Published
                && p.position.unwrap() > p.phase->Telling_target;
            match event {
                StreamerEvent::Started { initial: Some(start) } => is <==> was || start <= x < len,
                _ => match q.phase {
                    Phase::Opening { start, end } => is <==> was || start <= x <= end,
                    Phase::Reading { target, protect, .. } if anew => is <==> was || protect <= x
                        <= target,
                    _ => q.requested == p.requested,
                },
            }
        }),
{
    let (q, step) = advanced(p, event, record, len);
    let pending = match event {
        StreamerEvent::Requested { range } => entries::gaps(
            record,
            range.start as int,
            range.end - 1,
        ),
        _ => p.pending,
    };
    if let StreamerEvent::Requested { range } = event {
        entries::law_missing_ranges_do_not_touch(record, range);
    }
    if pending.len() > 0 {
        assert(pending[0].0 <= pending[0].1 < u64::MAX);
        entries::law_cover_adds_the_range(
            p.requested,
            (pending[0].0..(pending[0].1 + 1) as u64),
        );
    }
    if let StreamerEvent::Started { initial: Some(start) } = event {
        entries::law_cover_adds_the_range(p.requested, (start..len));
    }
}

/// How the task starts.
pub proof fn law_how_the_task_starts(
    p: Progress,
    start: u64,
    record: Seq<(u64, u64)>,
    len: u64,
)
    requires
        p.valid(),
        p.phase is Idle,
        start < len,
    ensures
        ({
            let (q, step) = advanced(p, StreamerEvent::Started { initial: None }, record, len);
            step is AwaitRequest && q == p
        }),
        ({
            let (q, step) = advanced(
                p,
                StreamerEvent::Started { initial: Some(start) },
                record,
                len,
            );
            &&& step is ReadChunk
            &&& q.position == Some(start)
            &&& q.phase matches Phase::Reading { target, protect, initial } && target == len - 1
                && protect == start && initial
            &&& q.pending == p.pending
            &&& q.requested_time == p.requested_time + 1
            &&& q.taken_requests == p.taken_requests
            &&& q.limit == p.limit
            &&& q.error == p.error
        }),
{
}

/// How a range is taken up that was asked for. The first bytes of it that are missing are read or
/// asked for, up to the next byte that is held or the end of the range, and what is missing behind
/// them is pending.
pub proof fn law_how_ranges_are_taken_up(
    p: Progress,
    range: Range<u64>,
    record: Seq<(u64, u64)>,
    len: u64,
    x: int,
)
    requires
        acceptable(p, StreamerEvent::Requested { range }, len),
        p.valid(),
        entries::ordered(record),
        entries::inhabited(record),
    ensures
        ({
            let (q, step) = advanced(p, StreamerEvent::Requested { range }, record, len);
            let missing = range.start <= x < range.end && !entries::holds(record, x);
            &&& q.taken_requests == p.taken_requests + 1
            &&& q.position == p.position
            &&& q.limit == p.limit
            &&& q.error == p.error
            &&& step is AwaitRequest || step is ReadChunk || step is OpenRange
            &&& step is AwaitRequest ==> {
                &&& !missing
                &&& q.phase is Idle
                &&& q.pending.len() == 0
                &&& q.requested == p.requested
                &&& q.requested_time == p.requested_time
            }
            &&& !(step is AwaitRequest) ==> {
                let (start, end) = match q.phase {
                    Phase::Opening { start, end } => (start, end),
                    Phase::Reading { target, protect, .. } => (protect, target),
                    _ => (1, 0),
                };
                &&& range.start <= start <= end < range.end
                &&& missing ==> start <= x
                &&& start <= x <= end ==> missing
                &&& entries::holds(q.pending, x) <==> missing && x > end
                &&& forall|i: int|
                    0 <= i < q.pending.len() ==> end + 1 < (#[trigger] q.pending[i]).0
                        <= q.pending[i].1
                &&& forall|i: int, j: int|
                    0 <= i < j < q.pending.len() ==> (#[trigger] q.pending[i]).1 + 1 < (
                    #[trigger] q.pending[j]).0
                &&& end + 1 == range.end || entries::holds(record, end + 1)
                &&& q.phase is Reading <==> p.position == Some(start)
                &&& q.phase is Opening <==> p.position != Some(start)
                &&& q.phase matches Phase::Reading { initial, .. } ==> !initial && step is ReadChunk
                    && q.requested_time == p.requested_time
                &&& q.phase is Opening ==> step == Step::OpenRange(range_header(start))
                    && q.requested_time == p.requested_time + 1
            }
        }),
{
    let last = range.end - 1;
    let g = entries::gaps(record, range.start as int, last);
    let (q, step) = advanced(p, StreamerEvent::Requested { range }, record, len);
    entries::law_missing_ranges_do_not_touch(record, range);
    entries::law_gaps_are_what_is_missing(record, range.start as int, last, x);
    entries::lemma_gaps_ordered(record, range.start as int, last, record.len() + 1);
    if g.len() == 0 {
        assert(!entries::holds(g, x));
    } else {
        let (start, end) = g[0];
        assert(start <= end);
        assert forall|i: int| 0 <= i < q.pending.len() implies end + 1 < (#[trigger] q.pending[i]).0
            <= q.pending[i].1 by {
            assert(q.pending[i] == g[i + 1]);
            assert(g[0].1 + 1 < g[i + 1].0);
        }
        assert forall|i: int, j: int| 0 <= i < j < q.pending.len() implies (
        #[trigger] q.pending[i]).1 + 1 < (#[trigger] q.pending[j]).0 by {
            assert(g[i + 1].1 + 1 < g[j + 1].0);
        }
        assert(range.start <= start && end <= last);
        if start <= x <= end {
            assert(entries::holds(g, x)) by {
                assert(g[0].0 <= x <= g[0].1);
            }
        }
        if entries::holds(g, x) {
            let i = choose|i: int| 0 <= i < g.len() && (#[trigger] g[i]).0 <= x <= g[i].1;
            if i > 0 {
                assert(g[0].1 < g[i].0);
                assert(q.pending[i - 1] == g[i]);
                assert(entries::holds(q.pending, x));
            }
        }
        if entries::holds(q.pending, x) {
            let i = choose|i: int|
                0 <= i < q.pending.len() && (#[trigger] q.pending[i]).0 <= x <= q.pending[i].1;
            assert(g[i + 1] == q.pending[i]);
            assert(g[0].1 < g[i + 1].0);
            assert(entries::holds(g, x));
        }
        entries::law_gaps_are_what_is_missing(record, range.start as int, last, end + 1);
        if end + 1 < range.end && !entries::holds(record, end + 1) {
            assert(entries::holds(g, end + 1));
            let i = choose|i: int| 0 <= i < g.len() && (#[trigger] g[i]).0 <= end + 1 <= g[i].1;
            if i > 0 {
                assert(g[0].1 + 1 < g[i].0);
            }
            assert(false);
        }
    }
}

/// How the task goes on when a response has given what was wanted of it, or has ended: with the
/// first of the ranges that are pending, or with none.
pub proof fn law_how_pending_ranges_are_taken_up(
    p: Progress,
    event: StreamerEvent,
    record: Seq<(u64, u64)>,
    len: u64,
)
    requires
        acceptable(p, event, len),
        p.valid(),
        event is BodyEnded || event == (StreamerEvent::Published { delivered: true })
            && p.position.unwrap() > p.phase->Telling_target,
    ensures
        ({
            let (q, step) = advanced(p, event, record, len);
            let was_initial = match p.phase {
                Phase::Reading { initial, .. } => initial,
                Phase::Telling { initial, .. } => initial,
                _ => false,
            };
            &&& q.taken_requests == p.taken_requests
            &&& q.limit == p.limit
            &&& q.error == p.error
            &&& was_initial ==> q.position is None
            &&& !was_initial ==> q.position == p.position
            &&& p.pending.len() == 0 ==> {
                &&& step is AwaitRequest
                &&& q.phase is Idle
                &&& q.pending.len() == 0
                &&& q.requested_time == p.requested_time
            }
            &&& p.pending.len() > 0 ==> {
                let (start, end) = p.pending[0];
                &&& q.pending.len() == p.pending.len() - 1
                &&& forall|i: int|
                    0 <= i < q.pending.len() ==> #[trigger] q.pending[i] == p.pending[i + 1]
                &&& p.position == Some(start) ==> {
                    &&& step is ReadChunk
                    &&& q.phase matches Phase::Reading { target, protect, initial } && target == end
                        && protect == start && !initial
                    &&& q.requested_time == p.requested_time
                }
                &&& p.position != Some(start) ==> {
                    &&& step == Step::OpenRange(range_header(start))
                    &&& q.phase == Phase::Opening { start, end }
                    &&& q.requested_time == p.requested_time + 1
                }
            }
        }),
{
}

/// How the task goes on when its progress was told and more is wanted of the response, and how it
/// ends when nobody listens or asks.
pub proof fn law_how_reading_goes_on(
    p: Progress,
    record: Seq<(u64, u64)>,
    len: u64,
)
    requires
        p.valid(),
    ensures
        p.phase matches Phase::Telling { target, protect, initial } ==> {
            let (q, step) = advanced(
                p,
                StreamerEvent::Published { delivered: true },
                record,
                len,
            );
            p.position.unwrap() <= target ==> {
                &&& step is ReadChunk
                &&& q.phase == Phase::Reading { target, protect, initial }
                &&& q == (Progress { phase: q.phase, ..p })
            }
        },
        p.phase is Telling ==> {
            let (q, step) = advanced(
                p,
                StreamerEvent::Published { delivered: false },
                record,
                len,
            );
            step is Stop && q == (Progress { phase: Phase::Stopped, ..p })
        },
        ({
            let (q, step) = advanced(p, StreamerEvent::RequestsClosed, record, len);
            step is Stop && q == (Progress { phase: Phase::Stopped, ..p })
        }),
{
}

/// A response without the part that was asked for ends the task, exactly if that part does not
/// begin the file, and whatever was asked for or answered before. Any other response is read from
/// the byte on that was asked for.
pub proof fn law_partial_responses_are_needed(
    p: Progress,
    start: u64,
    end: u64,
    partial: bool,
    record: Seq<(u64, u64)>,
    len: u64,
)
    requires
        p.phase == (Phase::Opening { start, end }),
    ensures
        ({
            let (q, step) = advanced(p, StreamerEvent::Opened { partial }, record, len);
            &&& step is PublishAndStop <==> start != 0 && !partial
            &&& step is PublishAndStop ==> {
                &&& q.error == Some(AsyncHttpRangeReaderError::HttpRangeRequestUnsupported)
                &&& q.phase is Stopped
                &&& q == (Progress { error: q.error, phase: q.phase, ..p })
            }
            &&& start == 0 || partial ==> {
                &&& step is ReadChunk
                &&& q.position == Some(start)
                &&& q.phase matches Phase::Reading { target, protect, initial } && target == end
                    && protect == start && !initial
                &&& q == (Progress { position: q.position, phase: q.phase, ..p })
            }
        }),
{
}

/// A failure ends the task, and is told as it is.
pub proof fn law_failures_are_told(
    p: Progress,
    message: String,
    record: Seq<(u64, u64)>,
    len: u64,
)
    ensures
        ({
            let (q, step) = advanced(p, StreamerEvent::OpenFailed { message }, record, len);
            &&& step is PublishAndStop
            &&& q == (Progress {
                error: Some(AsyncHttpRangeReaderError::IoError(message)),
                phase: Phase::Stopped,
                ..p
            })
        }),
        ({
            let (q, step) = advanced(p, StreamerEvent::BodyFailed { message }, record, len);
            &&& step is PublishAndStop
            &&& q == (Progress {
                error: Some(AsyncHttpRangeReaderError::TransportError(message)),
                phase: Phase::Stopped,
                ..p
            })
        }),
{
}

/// All bytes of some pieces, one piece after the other.
pub open spec fn joined(pieces: Seq<Bytes>) -> Seq<u8>
    decreases pieces.len(),
{
    if pieces.len() == 0 {
        seq![]
    } else {
        joined(pieces.drop_last()) + buffer::content(pieces.last())
    }
}

/// What the task and the map come to while a response gives some pieces, one after the other, and
/// the progress is told in between: the progress, what the map holds, and its record.
pub open spec fn after_pieces(
    p: Progress,
    held: Map<int, u8>,
    record: Seq<(u64, u64)>,
    len: u64,
    pieces: Seq<Bytes>,
) -> (Progress, Map<int, u8>, Seq<(u64, u64)>)
    decreases pieces.len(),
{
    if pieces.len() == 0 {
        (p, held, record)
    } else {
        let (a, h, r) = after_pieces(p, held, record, len, pieces.drop_last());
        let b = if pieces.len() == 1 {
            a
        } else {
            advanced(a, StreamerEvent::Published { delivered: true }, r, len).0
        };
        let event = StreamerEvent::Chunk { bytes: pieces.last() };
        (advanced(b, event, r, len).0, fed(b, event, h, len), fed_record(b, event, r, len))
    }
}

/// Two runs of bytes that together stand in a file from a position on stand in it one behind the
/// other.
proof fn lemma_parts_of_the_file(a: Seq<u8>, b: Seq<u8>, start: int, file: Seq<u8>)
    requires
        0 <= start,
        start + a.len() + b.len() <= file.len(),
        a + b == file.subrange(start, start + (a + b).len()),
    ensures
        a == file.subrange(start, start + a.len()),
        b == file.subrange(start + a.len(), start + a.len() + b.len()),
{
    assert forall|i: int| 0 <= i < a.len() implies a[i] == file[start + i] by {
        assert((a + b)[i] == a[i]);
    }
    assert(a =~= file.subrange(start, start + a.len()));
    assert forall|i: int| 0 <= i < b.len() implies b[i] == file[start + a.len() + i] by {
        assert((a + b)[a.len() + i] == b[i]);
    }
    assert(b =~= file.subrange(start + a.len(), start + a.len() + b.len()));
}

/// A piece of a file that comes behind what is held of the response is held with it.
proof fn lemma_piece_of_the_file(
    b: Progress,
    bytes: Bytes,
    start: u64,
    held: Map<int, u8>,
    record: Seq<(u64, u64)>,
    len: u64,
    file: Seq<u8>,
)
    requires
        b.phase matches Phase::Reading { protect, .. } && protect == start,
        b.position matches Some(position) && start <= position && position + buffer::content(
            bytes,
        ).len() <= len && buffer::content(bytes) == file.subrange(
            position as int,
            position + buffer::content(bytes).len(),
        ),
        file.len() == len,
        chunks::agrees(held, file),
        forall|x: int| start <= x < b.position.unwrap() ==> #[trigger] held.contains_key(x),
    ensures
        ({
            let event = StreamerEvent::Chunk { bytes };
            let q = advanced(b, event, record, len).0;
            let after = fed(b, event, held, len);
            &&& q.position matches Some(position) && position == b.position.unwrap()
                + buffer::content(bytes).len()
            &&& b.phase matches Phase::Reading { target, protect, initial } && q.phase == (
            Phase::Telling { target, protect, initial })
            &&& q.limit == b.limit
            &&& chunks::agrees(after, file)
            &&& forall|x: int|
                start <= x < b.position.unwrap() + buffer::content(bytes).len()
                    ==> #[trigger] after.contains_key(x) && after[x] == file[x]
        }),
{
    law_the_map_keeps_to_the_file(b, StreamerEvent::Chunk { bytes }, held, len, file);
}

/// A response that was opened at a position and has given some bytes in all stands that many bytes
/// behind it, in whatever pieces they came. And if they are the bytes of the file from the position
/// on, then the map holds bytes of the file only, and all those that have come.
pub proof fn law_responses_go_where_they_belong(
    p: Progress,
    start: u64,
    held: Map<int, u8>,
    record: Seq<(u64, u64)>,
    len: u64,
    pieces: Seq<Bytes>,
    file: Seq<u8>,
)
    requires
        p.valid(),
        p.phase matches Phase::Reading { target, protect, .. } && protect == start && target < len
            && start + joined(pieces.drop_last()).len() <= target,
        p.position == Some(start),
        pieces.len() > 0,
        file.len() == len,
        start + joined(pieces).len() <= len,
        joined(pieces) == file.subrange(start as int, start + joined(pieces).len()),
        chunks::agrees(held, file),
    ensures
        ({
            let (q, after, _) = after_pieces(p, held, record, len, pieces);
            &&& q.position matches Some(position) && position == start + joined(pieces).len()
            &&& p.phase matches Phase::Reading { target, protect, initial } && q.phase == (
            Phase::Telling { target, protect, initial })
            &&& q.limit == p.limit
            &&& chunks::agrees(after, file)
            &&& forall|x: int|
                start <= x < start + joined(pieces).len() ==> #[trigger] after.contains_key(x)
                    && after[x] == file[x]
        }),
    decreases pieces.len(),
{
    let front = pieces.drop_last();
    let new = buffer::content(pieces.last());
    let (a, h, r) = after_pieces(p, held, record, len, front);
    assert(joined(pieces) == joined(front) + new);
    lemma_parts_of_the_file(joined(front), new, start as int, file);
    if pieces.len() == 1 {
        assert(front =~= Seq::<Bytes>::empty());
    } else {
        assert(joined(front).len() >= joined(front.drop_last()).len());
        law_responses_go_where_they_belong(p, start, held, record, len, front, file);
    }
    let b = if pieces.len() == 1 {
        a
    } else {
        advanced(a, StreamerEvent::Published { delivered: true }, r, len).0
    };
    assert(b.position matches Some(position) && position == start + joined(front).len());
    assert(b.phase == p.phase);
    assert(b.limit == p.limit);
    lemma_piece_of_the_file(b, pieces.last(), start, h, r, len, file);
}

/// A response to a request from a position on is stored from that position on: when the task has
/// opened it and read some pieces of it, the response stands as many bytes behind the position as
/// the pieces have, and the map holds them there.
pub proof fn law_opened_responses_go_where_they_belong(
    p: Progress,
    start: u64,
    end: u64,
    partial: bool,
    opened: Progress,
    held: Map<int, u8>,
    record: Seq<(u64, u64)>,
    len: u64,
    pieces: Seq<Bytes>,
    file: Seq<u8>,
)
    requires
        p.valid(),
        p.phase == (Phase::Opening { start, end }),
        start == 0 || partial,
        opened == advanced(p, StreamerEvent::Opened { partial }, record, len).0,
        end < len,
        pieces.len() > 0,
        file.len() == len,
        start + joined(pieces.drop_last()).len() <= end,
        start + joined(pieces).len() <= len,
        joined(pieces) == file.subrange(start as int, start + joined(pieces).len()),
        chunks::agrees(held, file),
    ensures
        after_pieces(opened, held, record, len, pieces).0.position == Some(
            (start + joined(pieces).len()) as u64,
        ),
        chunks::agrees(after_pieces(opened, held, record, len, pieces).1, file),
        forall|x: int|
            start <= x < start + joined(pieces).len() ==> #[trigger] after_pieces(
                opened,
                held,
                record,
                len,
                pieces,
            ).1.contains_key(x),
{
    law_responses_go_where_they_belong(opened, start, held, record, len, pieces, file);
}

/// The bytes of some pieces are the bytes of the first ones, and behind them those of the rest.
pub proof fn law_pieces_join(a: Seq<Bytes>, b: Seq<Bytes>, bytes: Bytes)
    ensures
        joined(seq![]) == Seq::<u8>::empty(),
        joined(seq![bytes]) == buffer::content(bytes),
        joined(a + b) == joined(a) + joined(b),
    decreases b.len(),
{
    let one = seq![bytes];
    assert(one.drop_last() =~= Seq::<Bytes>::empty());
    assert(joined(Seq::<Bytes>::empty()) =~= Seq::<u8>::empty());
    assert(joined(one) =~= buffer::content(bytes));
    if b.len() == 0 {
        assert(a + b =~= a);
        assert(joined(a) + joined(b) =~= joined(a));
    } else {
        law_pieces_join(a, b.drop_last(), bytes);
        assert((a + b).drop_last() =~= a + b.drop_last());
        assert(joined(a + b) =~= joined(a) + joined(b));
    }
}

/// Where the response stands that is open: with each event it goes on by the bytes that the event
/// brings, and by none if it brings none. It changes otherwise only when a response is opened, and
/// when the initial one is given up.
pub proof fn law_the_position_moves_with_the_bytes(
    p: Progress,
    event: StreamerEvent,
    record: Seq<(u64, u64)>,
    len: u64,
)
    requires
        p.valid(),
        acceptable(p, event, len),
    ensures
        ({
            let q = advanced(p, event, record, len).0;
            &&& event matches StreamerEvent::Started { initial: Some(start) } ==> q.position
                == Some(start)
            &&& event matches StreamerEvent::Chunk { bytes } ==> (q.position matches Some(position)
                && position == p.position.unwrap() + buffer::content(bytes).len())
            &&& event matches StreamerEvent::Opened { partial } ==> q.position == (if p.phase
                ->Opening_start == 0 || partial {
                Some(p.phase->Opening_start)
            } else {
                p.position
            })
            &&& event is BodyEnded ==> q.position == (if p.phase->Reading_initial {
                None
            } else {
                p.position
            })
            &&& event matches StreamerEvent::Published { delivered } ==> q.position == (if delivered
                && p.phase->Telling_initial && p.position.unwrap() > p.phase->Telling_target {
                None
            } else {
                p.position
            })
            &&& event == (StreamerEvent::Started { initial: None }) || event is Requested
                || event is RequestsClosed || event is OpenFailed || event is BodyFailed
                ==> q.position == p.position
        }),
{
}

/// All bytes that some events bring, one after the other.
pub open spec fn brought(events: Seq<StreamerEvent>) -> Seq<u8>
    decreases events.len(),
{
    if events.len() == 0 {
        seq![]
    } else {
        brought(events.drop_last()) + match events.last() {
            StreamerEvent::Chunk { bytes } => buffer::content(bytes),
            _ => seq![],
        }
    }
}

/// Where the task is after some events, each with the record of the map that it finds.
pub open spec fn after_events(
    p: Progress,
    events: Seq<(StreamerEvent, Seq<(u64, u64)>)>,
    len: u64,
) -> Progress
    decreases events.len(),
{
    if events.len() == 0 {
        p
    } else {
        let (event, record) = events.last();
        advanced(after_events(p, events.drop_last(), len), event, record, len).0
    }
}

/// Whether each of some events can come where the task is by then, and none opens a response.
pub open spec fn can_follow(
    p: Progress,
    events: Seq<(StreamerEvent, Seq<(u64, u64)>)>,
    len: u64,
) -> bool
    decreases events.len(),
{
    events.len() > 0 ==> {
        let before = after_events(p, events.drop_last(), len);
        let event = events.last().0;
        &&& can_follow(p, events.drop_last(), len)
        &&& before.valid()
        &&& acceptable(before, event, len)
        &&& !(event is Opened)
        &&& !(event is Started)
    }
}

/// A response that was opened at a position and has given some bytes in all stands that many bytes
/// behind it for as long as it is open, in whatever pieces they came, and whatever was asked for
/// and told in between.
pub proof fn law_open_responses_stand_where_they_were_read_to(
    p: Progress,
    start: u64,
    events: Seq<(StreamerEvent, Seq<(u64, u64)>)>,
    len: u64,
)
    requires
        p.position == Some(start),
        can_follow(p, events, len),
    ensures
        after_events(p, events, len).position matches Some(position) ==> position == start
            + brought(events.map_values(|e: (StreamerEvent, Seq<(u64, u64)>)| e.0)).len(),
    decreases events.len(),
{
    let only = |e: (StreamerEvent, Seq<(u64, u64)>)| e.0;
    if events.len() > 0 {
        let front = events.drop_last();
        let before = after_events(p, front, len);
        law_open_responses_stand_where_they_were_read_to(p, start, front, len);
        law_the_position_moves_with_the_bytes(before, events.last().0, events.last().1, len);
        assert(events.map_values(only).drop_last() =~= front.map_values(only));
        assert(events.map_values(only).last() == events.last().0);
    }
}

/// What the map holds after some events, each with the record of the map that it finds.
pub open spec fn held_after(
    p: Progress,
    held: Map<int, u8>,
    events: Seq<(StreamerEvent, Seq<(u64, u64)>)>,
    len: u64,
) -> Map<int, u8>
    decreases events.len(),
{
    if events.len() == 0 {
        held
    } else {
        let front = events.drop_last();
        fed(after_events(p, front, len), events.last().0, held_after(p, held, front, len), len)
    }
}

/// If an open response gives the file from the position on at which it was opened, then the map
/// holds bytes of the file only, after every event, in whatever pieces they come, and whatever is
/// asked for and told in between.
pub proof fn law_open_responses_give_the_file(
    p: Progress,
    start: u64,
    held: Map<int, u8>,
    events: Seq<(StreamerEvent, Seq<(u64, u64)>)>,
    len: u64,
    file: Seq<u8>,
)
    requires
        p.position == Some(start),
        can_follow(p, events, len),
        file.len() == len,
        chunks::agrees(held, file),
        after_events(p, events, len).position is Some,
        ({
            let given = brought(events.map_values(|e: (StreamerEvent, Seq<(u64, u64)>)| e.0));
            start + given.len() <= len && given == file.subrange(
                start as int,
                start + given.len(),
            )
        }),
    ensures
        chunks::agrees(held_after(p, held, events, len), file),
    decreases events.len(),
{
    let only = |e: (StreamerEvent, Seq<(u64, u64)>)| e.0;
    if events.len() > 0 {
        let front = events.drop_last();
        let before = after_events(p, front, len);
        let event = events.last().0;
        let given = brought(front.map_values(only));
        assert(events.map_values(only).drop_last() =~= front.map_values(only));
        assert(events.map_values(only).last() == event);
        let new = match event {
            StreamerEvent::Chunk { bytes } => buffer::content(bytes),
            _ => seq![],
        };
        assert(brought(events.map_values(only)) == given + new);
        lemma_parts_of_the_file(given, new, start as int, file);
        law_the_position_moves_with_the_bytes(before, event, events.last().1, len);
        law_open_responses_give_the_file(p, start, held, front, len, file);
        law_open_responses_stand_where_they_were_read_to(p, start, front, len);
        law_the_map_keeps_to_the_file(before, event, held_after(p, held, front, len), len, file);
    }
}

} // verus!
