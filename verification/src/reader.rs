//! The reader: where it stands in the file, what it has asked for, and what it does next.

use std::ops::Range;

use vstd::prelude::*;
use vstd::string::StringExecFns;

use crate::chunks;
use crate::content_range::{self, parse_content_range, ContentRange};
use crate::decimal::{self, parse_decimal, push_decimal};
use crate::entries;
use crate::error::AsyncHttpRangeReaderError;
use crate::memory_map::MemoryMap;
use crate::sparse_range::SparseRange;
use crate::state::{StreamerState, BACKWARD_MEMORY_LIMIT};

verus! {

/// For the initial request, we support either directly requesting N bytes from the end for file
/// or, if the server doesn't support negative byte offsets, starting with a HEAD request
/// instead.
#[derive(Debug, Clone, Copy)]
pub enum CheckSupportMethod {
    /// Perform a range request with a negative byte range. This will return the N bytes from the
    /// *end* of the file as well as the file-size. This is especially useful to also immediately
    /// get some bytes from the end of the file.
    NegativeRangeRequest(u64),
    /// Perform a head request to get the length of the file and check if the server supports
    /// range requests.
    Head,
}

/// The headers of the response to the initial request, each if it is there and readable.
#[derive(Debug)]
pub struct ResponseHead {
    /// The `Content-Range` header.
    pub content_range: Option<String>,
    /// The `Accept-Ranges` header.
    pub accept_ranges: Option<String>,
    /// The `Content-Length` header.
    pub content_length: Option<String>,
}

/// The reading side of a file that is streamed over HTTP.
#[derive(Debug)]
pub struct AsyncHttpRangeReader {
    /// The current read position in the stream.
    pub pos: u64,
    /// The range of bytes that have been requested for download, and were not freed since.
    pub requested_range: SparseRange,
    /// The ranges that were handed to the streaming task, and that it has not told yet to have
    /// taken up.
    pub unanswered: Vec<Range<u64>>,
    /// The last known progress of the streaming task.
    pub streamer_state: StreamerState,
    /// The length of the file.
    pub len: u64,
}

/// The text of an optional header.
pub open spec fn text_of(header: Option<&str>) -> Option<Seq<char>> {
    match header {
        Some(text) => Some(text@),
        None => None,
    }
}

/// The text of an optional header.
pub open spec fn owned_text_of(header: Option<String>) -> Option<Seq<char>> {
    match header {
        Some(text) => Some(text@),
        None => None,
    }
}

impl AsyncHttpRangeReader {
    /// The invariant.
    pub open spec fn wf(&self) -> bool {
        &&& self.requested_range.wf()
        &&& self.streamer_state.wf()
        &&& entries::forward(self.unanswered@)
    }

    /// Whether the reader stands at the begin of a file of that length, with nothing known of
    /// the streaming task but that the ranges that are given were requested.
    pub open spec fn fresh(&self, len: u64, ranges: Seq<(u64, u64)>) -> bool {
        &&& self.wf()
        &&& self.pos == 0
        &&& self.len == len
        &&& self.unanswered@ == Seq::<Range<u64>>::empty()
        &&& self.streamer_state.requested_ranges.entries() == ranges
        &&& self.streamer_state.coming_ranges.entries() == ranges
        &&& self.streamer_state.taken_requests == 0
        &&& self.streamer_state.requested_time == 0
        &&& self.streamer_state.backward_memory_limit == BACKWARD_MEMORY_LIMIT
        &&& self.streamer_state.error is None
    }
}

/// From where on the file counts as requested once a part of it has come. A part at the end
/// counts from its first byte on. Any other counts as if it stood at the end, without one of its
/// bytes.
pub open spec fn requested_from(first_byte: u64, last_byte: u64, complete_length: u64) -> u64 {
    if last_byte + 1 == complete_length {
        first_byte
    } else {
        (complete_length - (last_byte - first_byte)) as u64
    }
}

/// What comes of a response to a request for the end of the file: a reader, and the position
/// that the response begins at.
pub open spec fn tail_outcome(
    header: Seq<char>,
    parsed: Option<ContentRange>,
    r: Result<(AsyncHttpRangeReader, u64), AsyncHttpRangeReaderError>,
) -> bool {
    match parsed {
        None => r matches Err(AsyncHttpRangeReaderError::ContentRangeParser(text)) && text@
            == header,
        Some(ContentRange::Bytes { first_byte, last_byte, complete_length }) => {
            let start = requested_from(first_byte, last_byte, complete_length);
            &&& r matches Ok((reader, position))
            &&& position == first_byte
            &&& reader.requested_range.entries() == seq![(start, (complete_length - 1) as u64)]
            &&& reader.fresh(
                complete_length,
                if start < complete_length {
                    seq![(start, (complete_length - 1) as u64)]
                } else {
                    seq![]
                },
            )
        },
        Some(_) => r matches Err(AsyncHttpRangeReaderError::HttpRangeRequestUnsupported),
    }
}

/// What comes of a response to a request for the end of the file, with its header or without.
pub open spec fn tail_response_outcome(
    header: Option<Seq<char>>,
    r: Result<(AsyncHttpRangeReader, u64), AsyncHttpRangeReaderError>,
) -> bool {
    match header {
        None => r matches Err(AsyncHttpRangeReaderError::ContentRangeMissing),
        Some(text) => tail_outcome(text, content_range::parsed_content_range(text), r),
    }
}

/// What comes of a response to a HEAD request.
pub open spec fn head_response_outcome(
    accept_ranges: Option<Seq<char>>,
    content_length: Option<Seq<char>>,
    r: Result<AsyncHttpRangeReader, AsyncHttpRangeReaderError>,
) -> bool {
    if accept_ranges != Some("bytes"@) {
        r matches Err(AsyncHttpRangeReaderError::HttpRangeRequestUnsupported)
    } else {
        match content_length {
            Some(text) if decimal::numeral(text) is Some && decimal::numeral(text).unwrap()
                <= u64::MAX => {
                &&& r matches Ok(reader)
                &&& reader.fresh(decimal::numeral(text).unwrap() as u64, seq![])
                &&& reader.requested_range.entries() == Seq::<(u64, u64)>::empty()
            },
            _ => r matches Err(AsyncHttpRangeReaderError::ContentLengthMissing),
        }
    }
}

impl AsyncHttpRangeReader {
    /// Construct a new `AsyncHttpRangeReader` from the response to the initial request that the
    /// method asks for. Gives the reader, and the position that the response begins at if it
    /// holds a part of the file.
    pub fn new(check_method: CheckSupportMethod, response: &ResponseHead) -> (r: Result<
        (Self, Option<u64>),
        AsyncHttpRangeReaderError,
    >)
        ensures
            check_method is NegativeRangeRequest ==> tail_response_outcome(
                owned_text_of(response.content_range),
                match r {
                    Ok((reader, position)) => Ok((reader, position.unwrap())),
                    Err(error) => Err(error),
                },
            ) && (r matches Ok((_, position)) ==> position is Some),
            check_method is Head ==> head_response_outcome(
                owned_text_of(response.accept_ranges),
                owned_text_of(response.content_length),
                match r {
                    Ok((reader, position)) => Ok(reader),
                    Err(error) => Err(error),
                },
            ) && (r matches Ok((_, position)) ==> position is None),
    {
        match check_method {
            CheckSupportMethod::NegativeRangeRequest(_) => {
                match Self::from_tail_response(as_text(&response.content_range)) {
                    Ok((reader, position)) => Ok((reader, Some(position))),
                    Err(error) => Err(error),
                }
            },
            CheckSupportMethod::Head => {
                match Self::from_head_response(
                    as_text(&response.accept_ranges),
                    as_text(&response.content_length),
                ) {
                    Ok(reader) => Ok((reader, None)),
                    Err(error) => Err(error),
                }
            },
        }
    }

    /// The `Range` header of an initial range request, which determines if the remote accepts
    /// range requests. It asks for a number of bytes from the end of the stream.
    pub fn initial_tail_request(initial_chunk_size: u64) -> (r: String)
        ensures
            r@ == "bytes=-"@ + decimal::decimal(initial_chunk_size as nat),
    {
        let mut range = String::from_str("bytes=-");
        push_decimal(&mut range, initial_chunk_size);
        range
    }

    /// Initialize the reader from the response to a request for the end of the file, by its
    /// `Content-Range` header. Gives the reader, and the position that the response begins at.
    pub fn from_tail_response(content_range: Option<&str>) -> (r: Result<
        (Self, u64),
        AsyncHttpRangeReaderError,
    >)
        ensures
            tail_response_outcome(text_of(content_range), r),
    {
        match content_range {
            None => Err(AsyncHttpRangeReaderError::ContentRangeMissing),
            Some(header) => Self::from_content_range(header, parse_content_range(header)),
        }
    }

    /// Initialize the reader from what a `Content-Range` header says.
    pub fn from_content_range(header: &str, parsed: Option<ContentRange>) -> (r: Result<
        (Self, u64),
        AsyncHttpRangeReaderError,
    >)
        requires
            parsed matches Some(range) ==> range.valid(),
        ensures
            tail_outcome(header@, parsed, r),
    {
        let (first_byte, last_byte, complete_length) = match parsed {
            None => {
                return Err(AsyncHttpRangeReaderError::ContentRangeParser(header.to_owned()));
            },
            Some(ContentRange::Bytes { first_byte, last_byte, complete_length }) => (
                first_byte,
                last_byte,
                complete_length,
            ),
            Some(_) => {
                return Err(AsyncHttpRangeReaderError::HttpRangeRequestUnsupported);
            },
        };
        let start: u64 = if last_byte + 1 == complete_length {
            first_byte
        } else {
            complete_length - (last_byte - first_byte)
        };
        let mut streamer_state = StreamerState::default();
        if start < complete_length {
            streamer_state.requested_ranges = SparseRange::from_range(start..complete_length);
            streamer_state.coming_ranges = SparseRange::from_range(start..complete_length);
        }
        let reader = AsyncHttpRangeReader {
            pos: 0,
            requested_range: SparseRange::from_range(start..complete_length),
            unanswered: Vec::new(),
            streamer_state,
            len: complete_length,
        };
        Ok((reader, first_byte))
    }

    /// Initialize the reader from the response to a HEAD request, by its `Accept-Ranges` and
    /// `Content-Length` headers.
    pub fn from_head_response(accept_ranges: Option<&str>, content_length: Option<&str>) -> (r:
        Result<Self, AsyncHttpRangeReaderError>)
        ensures
            head_response_outcome(text_of(accept_ranges), text_of(content_length), r),
    {
        // Are range requests supported?
        let supported = match accept_ranges {
            Some(text) => text.to_owned() == "bytes".to_owned(),
            None => false,
        };
        if !supported {
            return Err(AsyncHttpRangeReaderError::HttpRangeRequestUnsupported);
        }
        let parsed: Option<u64> = match content_length {
            Some(text) => parse_decimal(text),
            None => None,
        };
        match parsed {
            Some(len) => Ok(
                AsyncHttpRangeReader {
                    pos: 0,
                    requested_range: SparseRange::default(),
                    unanswered: Vec::new(),
                    streamer_state: StreamerState::default(),
                    len,
                },
            ),
            None => Err(AsyncHttpRangeReaderError::ContentLengthMissing),
        }
    }
}

/// The text of an optional header.
fn as_text(header: &Option<String>) -> (r: Option<&str>)
    ensures
        text_of(r) == owned_text_of(*header),
{
    match header {
        Some(text) => Some(text.as_str()),
        None => None,
    }
}

/// A position to seek to.
#[derive(Debug, Clone, Copy)]
pub enum SeekPosition {
    /// So many bytes behind the begin of the file.
    Start(u64),
    /// So many bytes behind the end of the file, or before it.
    End(i64),
    /// So many bytes behind the current position, or before it.
    Current(i64),
}

/// A 64-bit number, taken as a signed one.
pub open spec fn signed(x: u64) -> int {
    if x < 0x8000_0000_0000_0000 {
        x as int
    } else {
        x - 0x1_0000_0000_0000_0000
    }
}

/// A signed 64-bit number, taken as an unsigned one.
pub open spec fn unsigned(x: int) -> int {
    if x < 0 {
        x + 0x1_0000_0000_0000_0000
    } else {
        x
    }
}

/// The signed 64-bit number that is nearest to `x`.
pub open spec fn saturated(x: int) -> int {
    if x < i64::MIN {
        i64::MIN as int
    } else if x > i64::MAX {
        i64::MAX as int
    } else {
        x
    }
}

/// The position `relative` bytes behind `origin`, within the bounds of signed 64-bit numbers.
pub open spec fn shifted(origin: u64, relative: i64) -> int {
    unsigned(saturated(signed(origin) + relative))
}

/// The position that a seek leads to.
pub open spec fn sought(position: SeekPosition, pos: u64, len: u64) -> int {
    match position {
        SeekPosition::Start(start) => start as int,
        SeekPosition::End(relative) => shifted(len, relative),
        SeekPosition::Current(relative) => shifted(pos, relative),
    }
}

/// The position `relative` bytes behind `origin`.
fn shift(origin: u64, relative: i64) -> (r: u64)
    ensures
        r == shifted(origin, relative),
{
    let from: i64 = #[verifier::truncate]
    (origin as i64);
    assert(from == (if origin < 0x8000_0000_0000_0000u64 {
        origin as int
    } else {
        origin - 0x1_0000_0000_0000_0000
    })) by (bit_vector)
        requires
            from == origin as i64,
    ;
    let sum: i64 = match from.checked_add(relative) {
        Some(sum) => sum,
        None => if relative < 0 {
            i64::MIN
        } else {
            i64::MAX
        },
    };
    let r: u64 = #[verifier::truncate]
    (sum as u64);
    assert(r == (if sum < 0 {
        sum + 0x1_0000_0000_0000_0000
    } else {
        sum as int
    })) by (bit_vector)
        requires
            r == sum as u64,
    ;
    r
}

/// What the reader is told while a read goes on.
#[derive(Debug)]
pub enum ReadEvent {
    /// A read was started, for so many bytes at most.
    Started { remaining: u64 },
    /// The range was handed to the streaming task.
    RequestSent { range: Range<u64> },
    /// The streaming task has told of its progress while the range was waited for.
    StateArrived { range: Range<u64>, state: StreamerState },
}

/// What is to be done for a read.
#[derive(Debug)]
pub enum ReadAction {
    /// The read fails.
    Fail(AsyncHttpRangeReaderError),
    /// The read is done, with no bytes.
    Finish,
    /// Hand the range to the streaming task as soon as there is room for it.
    RequestRange(Range<u64>),
    /// Wait for the streaming task to tell of its progress.
    AwaitState(Range<u64>),
    /// The read is done, with these bytes.
    Deliver(Vec<u8>),
}

impl ReadEvent {
    /// The range that is read.
    pub open spec fn range(&self, reader: AsyncHttpRangeReader) -> Range<u64> {
        match *self {
            ReadEvent::Started { remaining } => {
                let end = if reader.pos + remaining < reader.len {
                    (reader.pos + remaining) as u64
                } else {
                    reader.len
                };
                reader.pos..end
            },
            ReadEvent::RequestSent { range } => range,
            ReadEvent::StateArrived { range, .. } => range,
        }
    }

    /// Whether the event can come: a read does not go beyond the greatest position, unless it is
    /// bound to fail, and a range that was waited for is one that the reader has given.
    pub open spec fn acceptable(&self, reader: AsyncHttpRangeReader) -> bool {
        match *self {
            ReadEvent::Started { remaining } => reader.streamer_state.error is None ==> reader.pos
                + remaining <= u64::MAX,
            ReadEvent::RequestSent { range } => reader.pos == range.start < range.end
                <= reader.len,
            ReadEvent::StateArrived { range, state } => reader.pos == range.start < range.end
                <= reader.len && state.wf(),
        }
    }
}

/// How many of the unanswered ranges a state tells to have been taken up.
pub open spec fn answered(before: AsyncHttpRangeReader, state: StreamerState) -> int {
    let news = state.taken_requests - before.streamer_state.taken_requests;
    if news <= 0 {
        0
    } else if news < before.unanswered@.len() {
        news
    } else {
        before.unanswered@.len() as int
    }
}

/// Whether the reader has taken note of a state: requested is what the streaming task holds or
/// still waits for, and what it has not taken up yet.
pub open spec fn noted(
    before: AsyncHttpRangeReader,
    state: StreamerState,
    after: AsyncHttpRangeReader,
) -> bool {
    &&& after.streamer_state == state
    &&& after.unanswered@ == before.unanswered@.skip(answered(before, state))
    &&& after.requested_range.entries() == entries::with_all(
        state.coming_ranges.entries(),
        after.unanswered@,
    )
}

/// How a read goes on once its range is requested: the bytes are delivered if the map has them
/// all.
pub open spec fn served(
    map: MemoryMap,
    range: Range<u64>,
    before: AsyncHttpRangeReader,
    after: AsyncHttpRangeReader,
    action: ReadAction,
) -> bool {
    if chunks::holds_all(map@, range.start as int, range.end as int) {
        &&& action matches ReadAction::Deliver(bytes)
        &&& bytes@ == chunks::run(map@, range.start as int, range.end as int)
        &&& after.pos == range.end
    } else {
        &&& action matches ReadAction::AwaitState(awaited)
        &&& awaited == range
        &&& after.pos == before.pos
    }
}

/// What comes of an event of a read.
pub open spec fn read_outcome(
    map: MemoryMap,
    event: ReadEvent,
    before: AsyncHttpRangeReader,
    after: AsyncHttpRangeReader,
    action: ReadAction,
) -> bool {
    let range = event.range(before);
    match event {
        ReadEvent::Started { .. } => {
            &&& after.requested_range == before.requested_range
            &&& after.unanswered == before.unanswered
            &&& after.streamer_state == before.streamer_state
            &&& if before.streamer_state.error is Some {
                &&& action == ReadAction::Fail(before.streamer_state.error.unwrap())
                &&& after.pos == before.pos
            } else if range.start >= range.end {
                &&& action is Finish
                &&& after.pos == before.pos
            } else if !before.requested_range.covers(range) {
                &&& action == ReadAction::RequestRange(range)
                &&& after.pos == before.pos
            } else {
                served(map, range, before, after, action)
            }
        },
        ReadEvent::RequestSent { .. } => {
            &&& after.requested_range.entries() == entries::updated(
                before.requested_range.entries(),
                range,
            )
            &&& after.unanswered@ == before.unanswered@.push(range)
            &&& after.streamer_state == before.streamer_state
            &&& served(map, range, before, after, action)
        },
        ReadEvent::StateArrived { state, .. } => {
            &&& noted(before, state, after)
            &&& if state.error is Some {
                &&& action == ReadAction::Fail(state.error.unwrap())
                &&& after.pos == before.pos
            } else if !chunks::holds_all(map@, range.start as int, range.end as int)
                && !after.requested_range.covers(range) {
                &&& action == ReadAction::RequestRange(range)
                &&& after.pos == before.pos
            } else {
                served(map, range, before, after, action)
            }
        },
    }
}

impl AsyncHttpRangeReader {
    /// The part of a range that is worth prefetching: what lies within the file, if any of it
    /// was not requested.
    pub open spec fn to_prefetch(&self, bytes: Range<u64>) -> Option<Range<u64>> {
        let end = if bytes.end < self.len {
            bytes.end
        } else {
            self.len
        };
        if bytes.start >= end || self.requested_range.covers((bytes.start..end)) {
            None
        } else {
            Some((bytes.start..end))
        }
    }

    /// Returns the ranges that this instance actually performed HTTP requests for, as the
    /// streaming task has told, if there is news of it.
    pub fn requested_ranges(&mut self, news: Option<StreamerState>) -> (r: Vec<Range<u64>>)
        requires
            old(self).wf(),
            news matches Some(state) ==> state.wf(),
        ensures
            final(self).wf(),
            final(self).pos == old(self).pos,
            final(self).len == old(self).len,
            news is None ==> *final(self) == *old(self),
            news matches Some(state) ==> noted(*old(self), state, *final(self)),
            news matches Some(state) ==> final(self).streamer_state == state,
            r@.len() == final(self).streamer_state.requested_ranges.entries().len(),
            forall|i: int|
                0 <= i < r@.len() ==> {
                    let entry = final(self).streamer_state.requested_ranges.entries()[i];
                    (#[trigger] r@[i]).start == entry.0 && r@[i].end == entry.1 + 1
                },
    {
        if let Some(state) = news {
            self.note(state);
        }
        self.streamer_state.requested_ranges.covered_ranges()
    }

    /// Takes note of what the streaming task has told.
    fn note(&mut self, state: StreamerState)
        requires
            old(self).wf(),
            state.wf(),
        ensures
            final(self).wf(),
            final(self).pos == old(self).pos,
            final(self).len == old(self).len,
            noted(*old(self), state, *final(self)),
    {
        let ghost before = *self;
        let news: u64 = state.taken_requests.saturating_sub(self.streamer_state.taken_requests);
        let skip: usize = if news < self.unanswered.len() as u64 {
            news as usize
        } else {
            self.unanswered.len()
        };
        let mut unanswered: Vec<Range<u64>> = Vec::new();
        for i in skip..self.unanswered.len()
            invariant
                skip <= self.unanswered@.len(),
                unanswered@ == self.unanswered@.subrange(skip as int, i as int),
        {
            unanswered.push(self.unanswered[i].start..self.unanswered[i].end);
        }
        proof {
            assert(skip == answered(before, state));
            assert(unanswered@ =~= before.unanswered@.skip(skip as int));
            assert forall|i: int| 0 <= i < unanswered@.len() implies unanswered@[i]
                == before.unanswered@[skip + i] by {}
        }
        self.requested_range = state.coming_ranges.clone();
        self.requested_range.update_from(&unanswered, 0);
        assert(unanswered@.skip(0) =~= unanswered@);
        self.unanswered = unanswered;
        self.streamer_state = state;
    }

    /// Prefetches a range of bytes from the remote: gives the range to hand to the streaming
    /// task, if there is anything in it that has not been requested.
    pub fn prefetch(&self, bytes: Range<u64>) -> (r: Option<Range<u64>>)
        requires
            self.wf(),
        ensures
            r == self.to_prefetch(bytes),
            (exists|x: int|
                bytes.start <= x < bytes.end && x < self.len
                    && !#[trigger] self.requested_range@.contains(x)) ==> (r matches Some(range)
                && range.start == bytes.start && range.end <= bytes.end && range.end <= self.len
                && (range.end == bytes.end || range.end == self.len)),
            r is Some ==> exists|x: int|
                bytes.start <= x < bytes.end && x < self.len
                    && !#[trigger] self.requested_range@.contains(x),
    {
        // Ensure the range is within the file size and non-zero of length.
        let end: u64 = if bytes.end < self.len {
            bytes.end
        } else {
            self.len
        };
        if bytes.start >= end {
            return None;
        }
        // Check if the range has been requested or not.
        match self.requested_range.cover(bytes.start..end) {
            Some(_) => Some(bytes.start..end),
            None => None,
        }
    }

    /// Takes note that a range was handed to the streaming task.
    pub fn request_sent(&mut self, range: Range<u64>)
        requires
            old(self).wf(),
            range.start <= range.end,
            1 <= range.end,
        ensures
            final(self).wf(),
            final(self).pos == old(self).pos,
            final(self).len == old(self).len,
            final(self).streamer_state == old(self).streamer_state,
            final(self).requested_range.entries() == entries::updated(
                old(self).requested_range.entries(),
                range,
            ),
            final(self).unanswered@ == old(self).unanswered@.push(range),
            final(self).requested_range.covers(range),
    {
        self.unanswered.push(range.start..range.end);
        self.requested_range.update(range);
    }

    /// Returns the length of the stream in bytes.
    pub fn len(&self) -> (r: u64)
        ensures
            r == self.len,
    {
        self.len
    }

    /// Returns how many HTTP requests were made, as far as it is known.
    pub fn requested_time(&self) -> (r: usize)
        ensures
            r == self.streamer_state.requested_time,
    {
        self.streamer_state.requested_time
    }

    /// Moves the read position.
    pub fn start_seek(&mut self, position: SeekPosition)
        ensures
            *final(self) == (AsyncHttpRangeReader {
                pos: sought(position, old(self).pos, old(self).len) as u64,
                ..*old(self)
            }),
            final(self).pos == sought(position, old(self).pos, old(self).len),
            position matches SeekPosition::Start(n) ==> final(self).pos == n,
            position matches SeekPosition::End(d) ==> (old(self).len <= i64::MAX && 0 <= old(
                self,
            ).len + d <= i64::MAX ==> final(self).pos == old(self).len + d),
            position matches SeekPosition::Current(d) ==> (old(self).pos <= i64::MAX && 0 <= old(
                self,
            ).pos + d <= i64::MAX ==> final(self).pos == old(self).pos + d),
    {
        self.pos = match position {
            SeekPosition::Start(pos) => pos,
            SeekPosition::End(relative) => shift(self.len, relative),
            SeekPosition::Current(relative) => shift(self.pos, relative),
        };
    }

    /// The position that the last seek has led to.
    pub fn poll_complete(&self) -> (r: u64)
        ensures
            r == self.pos,
    {
        self.pos
    }

    /// Decides how a read goes on.
    pub fn poll_read(&mut self, map: &MemoryMap, event: ReadEvent) -> (action: ReadAction)
        requires
            old(self).wf(),
            map.wf(),
            map.len == old(self).len,
            event.acceptable(*old(self)),
        ensures
            final(self).wf(),
            final(self).len == old(self).len,
            read_outcome(*map, event, *old(self), *final(self), action),
    {
        match event {
            ReadEvent::Started { remaining } => {
                // If a previous error occurred we return that.
                if let Some(error) = &self.streamer_state.error {
                    return ReadAction::Fail(error.clone());
                }
                // Determine the range to be fetched.
                let end: u64 = if self.pos + remaining < self.len {
                    self.pos + remaining
                } else {
                    self.len
                };
                if self.pos >= end {
                    return ReadAction::Finish;
                }
                // Ensure we requested the required bytes.
                if !self.requested_range.is_covered(self.pos..end) {
                    return ReadAction::RequestRange(self.pos..end);
                }
                self.serve(map, self.pos..end)
            },
            ReadEvent::RequestSent { range } => {
                self.request_sent(range.start..range.end);
                self.serve(map, range)
            },
            ReadEvent::StateArrived { range, state } => {
                self.note(state);
                if let Some(error) = &self.streamer_state.error {
                    return ReadAction::Fail(error.clone());
                }
                // What was freed meanwhile has to be requested again.
                if !self.requested_range.is_covered(range.start..range.end)
                    && !self.holds(map, &range) {
                    return ReadAction::RequestRange(range);
                }
                self.serve(map, range)
            },
        }
    }

    /// Whether the map holds all of the range.
    fn holds(&self, map: &MemoryMap, range: &Range<u64>) -> (r: bool)
        requires
            map.wf(),
            range.start < range.end,
        ensures
            r == chunks::holds_all(map@, range.start as int, range.end as int),
    {
        let covered = map.inner.record.is_covered(range.start..range.end);
        proof {
            assert(map.inner.record@ == map@.dom());
            if covered {
                assert forall|x: int| range.start <= x < range.end implies map@.contains_key(x) by {
                    assert(map.inner.record@.contains(x));
                }
            } else {
                let x = choose|x: int|
                    range.start <= x < range.end && !#[trigger] map.inner.record@.contains(x);
                assert(!map@.contains_key(x));
            }
        }
        covered
    }

    /// Delivers the range if the map has it, and else waits for it.
    fn serve(&mut self, map: &MemoryMap, range: Range<u64>) -> (action: ReadAction)
        requires
            old(self).wf(),
            map.wf(),
            range.start < range.end <= map.len,
        ensures
            final(self).wf(),
            final(self).len == old(self).len,
            final(self).requested_range == old(self).requested_range,
            final(self).unanswered == old(self).unanswered,
            final(self).streamer_state == old(self).streamer_state,
            served(*map, range, *old(self), *final(self), action),
    {
        if self.holds(map, &range) {
            if let Some(bytes) = map.get(range.start..range.end) {
                self.pos = range.end;
                return ReadAction::Deliver(bytes);
            }
        }
        ReadAction::AwaitState(range)
    }
}

/// Within the positions of a file that signed numbers can count, seeking from the end or from
/// the current position adds up.
pub proof fn law_seek_adds_up(pos: u64, len: u64, relative: i64)
    ensures
        len <= i64::MAX && 0 <= len + relative <= i64::MAX ==> sought(
            SeekPosition::End(relative),
            pos,
            len,
        ) == len + relative,
        pos <= i64::MAX && 0 <= pos + relative <= i64::MAX ==> sought(
            SeekPosition::Current(relative),
            pos,
            len,
        ) == pos + relative,
{
}

/// Every seek leads to a position.
pub proof fn law_seek_stays_in_bounds(position: SeekPosition, pos: u64, len: u64)
    ensures
        0 <= sought(position, pos, len) <= u64::MAX,
{
}

/// A seek back by as much as a seek forward leads back.
pub proof fn law_seek_back(pos: u64, len: u64, relative: i64)
    requires
        pos <= i64::MAX,
        0 <= relative,
        pos + relative <= i64::MAX,
    ensures
        sought(
            SeekPosition::Current((-relative) as i64),
            sought(SeekPosition::Current(relative), pos, len) as u64,
            len,
        ) == pos,
{
}

/// A read from ranges that are requested and held is served from memory: it asks for nothing
/// and waits for nothing.
pub proof fn law_held_ranges_are_read_from_memory(
    map: MemoryMap,
    event: ReadEvent,
    before: AsyncHttpRangeReader,
    after: AsyncHttpRangeReader,
    action: ReadAction,
)
    requires
        event is Started,
        read_outcome(map, event, before, after, action),
        before.streamer_state.error is None,
        event.range(before).start < event.range(before).end,
        before.requested_range.covers(event.range(before)),
        chunks::holds_all(
            map@,
            event.range(before).start as int,
            event.range(before).end as int,
        ),
    ensures
        action is Deliver,
        after.pos == event.range(before).end,
{
}

/// While the map holds bytes of the file only, a read delivers the bytes of the file from the
/// position on, and moves the position behind them.
pub proof fn law_reads_deliver_the_file(
    map: MemoryMap,
    event: ReadEvent,
    before: AsyncHttpRangeReader,
    after: AsyncHttpRangeReader,
    action: ReadAction,
    file: Seq<u8>,
)
    requires
        file.len() == before.len,
        chunks::agrees(map@, file),
        event.acceptable(before),
        read_outcome(map, event, before, after, action),
    ensures
        action matches ReadAction::Deliver(bytes) ==> {
            &&& bytes@ == file.subrange(before.pos as int, after.pos as int)
            &&& before.pos < after.pos <= file.len()
            &&& event matches ReadEvent::Started { remaining } ==> bytes@.len() <= remaining
        },
        !(action is Deliver) ==> after.pos == before.pos,
{
    if action is Deliver {
        let range = event.range(before);
        chunks::law_reads_are_parts_of_the_file(
            map@,
            range.start as int,
            range.end as int,
            file,
        );
    }
}

/// Two reads that deliver, one after the other, deliver a part of the file without a break.
pub proof fn law_reads_join(
    maps: (MemoryMap, MemoryMap),
    events: (ReadEvent, ReadEvent),
    readers: (AsyncHttpRangeReader, AsyncHttpRangeReader, AsyncHttpRangeReader),
    first: Vec<u8>,
    second: Vec<u8>,
    file: Seq<u8>,
)
    requires
        file.len() == readers.0.len,
        file.len() == readers.1.len,
        chunks::agrees(maps.0@, file),
        chunks::agrees(maps.1@, file),
        events.0.acceptable(readers.0),
        events.1.acceptable(readers.1),
        read_outcome(maps.0, events.0, readers.0, readers.1, ReadAction::Deliver(first)),
        read_outcome(maps.1, events.1, readers.1, readers.2, ReadAction::Deliver(second)),
    ensures
        first@ + second@ == file.subrange(readers.0.pos as int, readers.2.pos as int),
{
    let (before, between, after) = readers;
    law_reads_deliver_the_file(
        maps.0,
        events.0,
        before,
        between,
        ReadAction::Deliver(first),
        file,
    );
    law_reads_deliver_the_file(
        maps.1,
        events.1,
        between,
        after,
        ReadAction::Deliver(second),
        file,
    );
    assert(first@ + second@ =~= file.subrange(before.pos as int, after.pos as int));
}

/// A read that has room for a byte is done without one exactly at the end of the file, or
/// behind it.
pub proof fn law_reads_end_with_the_file(
    map: MemoryMap,
    before: AsyncHttpRangeReader,
    after: AsyncHttpRangeReader,
    remaining: u64,
    action: ReadAction,
)
    requires
        remaining > 0,
        before.streamer_state.error is None,
        read_outcome(map, ReadEvent::Started { remaining }, before, after, action),
    ensures
        action is Finish <==> before.pos >= before.len,
{
}

/// A read waits only for what was requested and was not freed since, as far as the reader knows.
pub proof fn law_reads_wait_for_what_is_coming(
    map: MemoryMap,
    event: ReadEvent,
    before: AsyncHttpRangeReader,
    after: AsyncHttpRangeReader,
    action: ReadAction,
)
    requires
        before.wf(),
        after.wf(),
        event.acceptable(before),
        read_outcome(map, event, before, after, action),
    ensures
        action matches ReadAction::AwaitState(range) ==> {
            &&& range == event.range(before)
            &&& after.requested_range.covers(range)
        },
{
    if event is RequestSent {
        let range = event.range(before);
        before.requested_range.law_entries_are_ordered();
        entries::law_cover_adds_the_range(before.requested_range.entries(), range);
        assert forall|x: int| range.start <= x < range.end implies #[trigger] after
            .requested_range@.contains(x) by {
            assert(entries::holds(after.requested_range.entries(), x));
        }
    }
}

/// When the streaming task tells that a byte of the range that is read is neither held nor
/// coming, and it has not still to take up a request for it, then the range is asked for again,
/// unless the map has got it after all.
pub proof fn law_freed_ranges_are_asked_for_again(
    map: MemoryMap,
    range: Range<u64>,
    state: StreamerState,
    before: AsyncHttpRangeReader,
    after: AsyncHttpRangeReader,
    action: ReadAction,
    x: int,
)
    requires
        before.wf(),
        after.wf(),
        state.wf(),
        state.error is None,
        read_outcome(
            map,
            ReadEvent::StateArrived { range, state },
            before,
            after,
            action,
        ),
        range.start <= x < range.end,
        !state.coming_ranges@.contains(x),
        !entries::in_ranges(before.unanswered@.skip(answered(before, state)), x),
    ensures
        chunks::holds_all(map@, range.start as int, range.end as int) ==> action is Deliver,
        !chunks::holds_all(map@, range.start as int, range.end as int) ==> action
            == ReadAction::RequestRange(range),
{
    state.coming_ranges.law_entries_are_ordered();
    entries::law_cover_adds_all_ranges(state.coming_ranges.entries(), after.unanswered@);
    assert(!entries::holds(after.requested_range.entries(), x));
    assert(!after.requested_range@.contains(x));
}

/// A read that starts where a byte is not known to be requested asks for its range.
pub proof fn law_unknown_ranges_are_asked_for(
    map: MemoryMap,
    before: AsyncHttpRangeReader,
    after: AsyncHttpRangeReader,
    remaining: u64,
    action: ReadAction,
    x: int,
)
    requires
        before.streamer_state.error is None,
        read_outcome(map, ReadEvent::Started { remaining }, before, after, action),
        ({
            let range = (ReadEvent::Started { remaining }).range(before);
            range.start <= x < range.end
        }),
        !before.requested_range@.contains(x),
    ensures
        action == ReadAction::RequestRange((ReadEvent::Started { remaining }).range(before)),
{
}

/// What was handed to the streaming task once is not prefetched again.
pub proof fn law_prefetch_once(reader: AsyncHttpRangeReader, range: Range<u64>, bytes: Range<u64>)
    requires
        reader.requested_range.covers(range),
        range.start <= bytes.start,
        bytes.end <= range.end,
    ensures
        reader.to_prefetch(bytes) is None,
{
    assert(reader.requested_range.covers(bytes));
    let end = if bytes.end < reader.len {
        bytes.end
    } else {
        reader.len
    };
    assert(reader.requested_range.covers((bytes.start..end)));
}

/// A range that is prefetched lies within the file and in the one asked for, and has a byte
/// that was not requested.
pub proof fn law_prefetch_stays_in_the_file(reader: AsyncHttpRangeReader, bytes: Range<u64>)
    ensures
        reader.to_prefetch(bytes) matches Some(range) ==> {
            &&& range.start == bytes.start
            &&& range.start < range.end <= bytes.end
            &&& range.end <= reader.len
            &&& !reader.requested_range.covers(range)
        },
{
}

/// A length that a server writes with digits is the length of the reader.
pub proof fn law_announced_length_is_the_length(
    len: u64,
    r: Result<AsyncHttpRangeReader, AsyncHttpRangeReaderError>,
)
    requires
        head_response_outcome(Some("bytes"@), Some(decimal::decimal(len as nat)), r),
    ensures
        r matches Ok(reader) && reader.len == len && reader.pos == 0,
{
    decimal::law_digits_stand_for_their_number(len as nat);
}

/// A previous error is what every read is answered with.
pub proof fn law_errors_stay(
    map: MemoryMap,
    before: AsyncHttpRangeReader,
    after: AsyncHttpRangeReader,
    remaining: u64,
    action: ReadAction,
)
    requires
        before.streamer_state.error is Some,
        read_outcome(map, ReadEvent::Started { remaining }, before, after, action),
    ensures
        action == ReadAction::Fail(before.streamer_state.error.unwrap()),
        after.streamer_state.error == before.streamer_state.error,
{
}

/// A seek to a number of bytes behind the begin leads to that position, wherever the reader
/// stands and however long the file is.
pub proof fn law_seek_to_a_position(n: u64, pos: u64, len: u64)
    ensures
        sought(SeekPosition::Start(n), pos, len) == n,
{
}

/// A seek from the end does not depend on where the reader stands, and one from the current
/// position not on the length. Each leads where a seek from the other does that has the same
/// origin.
pub proof fn law_seeks_go_by_their_origin(pos: u64, len: u64, other: u64, relative: i64)
    ensures
        sought(SeekPosition::End(relative), pos, len) == sought(
            SeekPosition::End(relative),
            other,
            len,
        ),
        sought(SeekPosition::Current(relative), pos, len) == sought(
            SeekPosition::Current(relative),
            pos,
            other,
        ),
        sought(SeekPosition::Current(relative), pos, len) == sought(
            SeekPosition::End(relative),
            other,
            pos,
        ),
        sought(SeekPosition::Current(0), pos, len) == pos,
        sought(SeekPosition::End(0), pos, len) == len,
{
}

/// Where a seek leads, in numbers: origin and distance are added as signed numbers of 64 bits,
/// which stop at their bounds, and the sum is taken as an unsigned one.
pub proof fn law_seek_in_numbers(origin: u64, other: u64, relative: i64)
    ensures
        ({
            let r = sought(SeekPosition::Current(relative), origin, other);
            let half = 0x8000_0000_0000_0000int;
            &&& origin < half && 0 <= origin + relative < half ==> r == origin + relative
            &&& origin < half && origin + relative >= half ==> r == half - 1
            &&& origin < half && origin + relative < 0 ==> r == origin + relative + 2 * half
            &&& origin >= half && origin + relative >= 2 * half ==> r == origin + relative - 2 * half
            &&& origin >= half && half <= origin + relative < 2 * half ==> r == origin + relative
            &&& origin >= half && origin + relative < half ==> r == half
        }),
{
}

/// A range of which any byte within the file was not requested is prefetched, all of it that lies
/// within the file. One of which all was requested is not.
pub proof fn law_prefetch_asks_for_what_is_missing(
    reader: AsyncHttpRangeReader,
    bytes: Range<u64>,
    x: int,
)
    ensures
        bytes.start <= x < bytes.end && x < reader.len && !reader.requested_range@.contains(x)
            ==> reader.to_prefetch(bytes) == Some(
            (bytes.start..if bytes.end <= reader.len {
                bytes.end
            } else {
                reader.len
            }),
        ),
        reader.to_prefetch(bytes) is Some ==> exists|y: int|
            bytes.start <= y < bytes.end && y < reader.len
                && !#[trigger] reader.requested_range@.contains(y),
{
    if reader.to_prefetch(bytes) is Some {
        let end = if bytes.end <= reader.len {
            bytes.end
        } else {
            reader.len
        };
        let y = choose|y: int|
            bytes.start <= y < end && !#[trigger] reader.requested_range@.contains(y);
        assert(!reader.requested_range@.contains(y));
    }
}

/// What is prefetched and handed over is not asked for a second time, neither by a prefetch nor by
/// a read.
pub proof fn law_handed_over_is_not_asked_for_again(
    map: MemoryMap,
    before: AsyncHttpRangeReader,
    sent: AsyncHttpRangeReader,
    after: AsyncHttpRangeReader,
    range: Range<u64>,
    remaining: u64,
    action: ReadAction,
)
    requires
        before.wf(),
        sent.wf(),
        range.start <= range.end,
        1 <= range.end,
        sent.len == before.len,
        sent.requested_range.entries() == entries::updated(
            before.requested_range.entries(),
            range,
        ),
        read_outcome(map, ReadEvent::Started { remaining }, sent, after, action),
        range.start <= sent.pos,
        sent.pos + remaining <= range.end,
    ensures
        sent.to_prefetch(range) is None,
        !(action is RequestRange),
{
    before.requested_range.law_entries_are_ordered();
    entries::law_cover_adds_the_range(before.requested_range.entries(), range);
    assert forall|x: int| range.start <= x < range.end implies #[trigger] sent
        .requested_range@.contains(x) by {
        assert(entries::holds(sent.requested_range.entries(), x));
    }
}

/// How a read starts, in full. It is about the bytes from the position on, as many as there is
/// room for and as the file has.
pub proof fn law_how_reads_start(
    map: MemoryMap,
    before: AsyncHttpRangeReader,
    after: AsyncHttpRangeReader,
    remaining: u64,
    action: ReadAction,
)
    requires
        read_outcome(map, ReadEvent::Started { remaining }, before, after, action),
    ensures
        after.requested_range == before.requested_range,
        after.unanswered == before.unanswered,
        after.streamer_state == before.streamer_state,
        ({
            let end = if before.pos + remaining <= before.len {
                before.pos + remaining
            } else {
                before.len as int
            };
            let all_requested = forall|x: int|
                before.pos <= x < end ==> #[trigger] before.requested_range@.contains(x);
            let all_held = forall|x: int|
                before.pos <= x < end ==> #[trigger] map@.contains_key(x);
            let healthy = before.streamer_state.error is None;
            &&& before.streamer_state.error matches Some(e) ==> action == ReadAction::Fail(e)
            &&& healthy && before.pos >= end ==> action is Finish
            &&& healthy && before.pos < end && !all_requested ==> action
                == ReadAction::RequestRange((before.pos..end as u64))
            &&& healthy && before.pos < end && all_requested && !all_held ==> action
                == ReadAction::AwaitState((before.pos..end as u64))
            &&& healthy && before.pos < end && all_requested && all_held ==> {
                &&& action matches ReadAction::Deliver(bytes)
                &&& bytes@.len() == end - before.pos
                &&& forall|i: int|
                    0 <= i < bytes@.len() ==> #[trigger] bytes@[i] == map@[before.pos + i]
                &&& after.pos == end
            }
            &&& !(action is Deliver) ==> after.pos == before.pos
        }),
{
    let range = (ReadEvent::Started { remaining }).range(before);
    assert(before.requested_range.covers(range) <==> forall|x: int|
        range.start <= x < range.end ==> #[trigger] before.requested_range@.contains(x));
}

/// What comes of handing a range to the streaming task: it is requested from then on, and it is
/// delivered if the map has it all, and waited for if not.
pub proof fn law_how_reads_ask(
    map: MemoryMap,
    before: AsyncHttpRangeReader,
    after: AsyncHttpRangeReader,
    range: Range<u64>,
    action: ReadAction,
    x: int,
)
    requires
        before.wf(),
        range.start < range.end,
        read_outcome(map, ReadEvent::RequestSent { range }, before, after, action),
    ensures
        after.requested_range@.contains(x) <==> before.requested_range@.contains(x) || range.start
            <= x < range.end,
        after.unanswered@ == before.unanswered@ + seq![range],
        after.streamer_state == before.streamer_state,
        ({
            let all_held = forall|y: int|
                range.start <= y < range.end ==> #[trigger] map@.contains_key(y);
            &&& !all_held ==> action == ReadAction::AwaitState(range) && after.pos == before.pos
            &&& all_held ==> {
                &&& action matches ReadAction::Deliver(bytes)
                &&& bytes@.len() == range.end - range.start
                &&& forall|i: int|
                    0 <= i < bytes@.len() ==> #[trigger] bytes@[i] == map@[range.start + i]
                &&& after.pos == range.end
            }
        }),
{
    before.requested_range.law_entries_are_ordered();
    entries::law_cover_adds_the_range(before.requested_range.entries(), range);
    assert(before.requested_range@.contains(x) <==> entries::holds(
        before.requested_range.entries(),
        x,
    ));
    assert(after.requested_range@.contains(x) <==> entries::holds(
        after.requested_range.entries(),
        x,
    ));
    assert(after.unanswered@ =~= before.unanswered@ + seq![range]);
}

/// What comes of news while a range is waited for. Requested is then what the task has told to
/// hold or to wait for, and what it has not taken up yet of what was handed to it.
pub proof fn law_how_reads_take_news(
    map: MemoryMap,
    before: AsyncHttpRangeReader,
    after: AsyncHttpRangeReader,
    range: Range<u64>,
    state: StreamerState,
    action: ReadAction,
    x: int,
)
    requires
        before.wf(),
        state.wf(),
        read_outcome(
            map,
            ReadEvent::StateArrived { range, state },
            before,
            after,
            action,
        ),
    ensures
        after.streamer_state == state,
        ({
            let taken = state.taken_requests - before.streamer_state.taken_requests;
            &&& taken <= 0 ==> after.unanswered@ == before.unanswered@
            &&& 0 < taken < before.unanswered@.len() ==> after.unanswered@
                == before.unanswered@.subrange(taken, before.unanswered@.len() as int)
            &&& taken >= before.unanswered@.len() && taken > 0 ==> after.unanswered@.len() == 0
        }),
        after.requested_range@.contains(x) <==> state.coming_ranges@.contains(x) || exists|i: int|
            0 <= i < after.unanswered@.len() && (#[trigger] after.unanswered@[i]).start <= x
                < after.unanswered@[i].end,
        ({
            let all_requested = forall|y: int|
                range.start <= y < range.end ==> #[trigger] after.requested_range@.contains(y);
            let all_held = forall|y: int|
                range.start <= y < range.end ==> #[trigger] map@.contains_key(y);
            &&& state.error matches Some(e) ==> action == ReadAction::Fail(e)
            &&& state.error is None && all_held && range.start <= range.end ==> {
                &&& action matches ReadAction::Deliver(bytes)
                &&& bytes@.len() == range.end - range.start
                &&& forall|i: int|
                    0 <= i < bytes@.len() ==> #[trigger] bytes@[i] == map@[range.start + i]
                &&& after.pos == range.end
            }
            &&& state.error is None && !all_held && all_requested ==> action
                == ReadAction::AwaitState(range)
            &&& state.error is None && !all_held && !all_requested ==> action
                == ReadAction::RequestRange(range)
            &&& !(action is Deliver) ==> after.pos == before.pos
        }),
{
    let rest = after.unanswered@;
    assert forall|i: int| 0 <= i < rest.len() implies rest[i] == before.unanswered@[answered(
        before,
        state,
    ) + i] by {}
    state.coming_ranges.law_entries_are_ordered();
    entries::law_cover_adds_all_ranges(state.coming_ranges.entries(), rest);
    assert(after.requested_range@.contains(x) <==> entries::holds(
        after.requested_range.entries(),
        x,
    ));
    assert(state.coming_ranges@.contains(x) <==> entries::holds(
        state.coming_ranges.entries(),
        x,
    ));
    assert(before.unanswered@.skip(0) =~= before.unanswered@);
    let taken = state.taken_requests - before.streamer_state.taken_requests;
    if 0 < taken < before.unanswered@.len() {
        assert(rest =~= before.unanswered@.subrange(taken, before.unanswered@.len() as int));
    }
    assert(after.requested_range.covers(range) <==> forall|y: int|
        range.start <= y < range.end ==> #[trigger] after.requested_range@.contains(y));
}

/// What comes of news that the ranges are asked with.
pub proof fn law_how_news_is_noted(
    before: AsyncHttpRangeReader,
    state: StreamerState,
    after: AsyncHttpRangeReader,
    x: int,
)
    requires
        before.wf(),
        state.wf(),
        noted(before, state, after),
    ensures
        after.streamer_state == state,
        state.taken_requests <= before.streamer_state.taken_requests ==> after.unanswered@
            == before.unanswered@,
        state.taken_requests >= before.streamer_state.taken_requests + before.unanswered@.len()
            ==> after.unanswered@.len() == 0,
        before.streamer_state.taken_requests <= state.taken_requests
            <= before.streamer_state.taken_requests + before.unanswered@.len()
            ==> after.unanswered@.len() + state.taken_requests
            == before.streamer_state.taken_requests + before.unanswered@.len(),
        forall|i: int|
            0 <= i < after.unanswered@.len() ==> #[trigger] after.unanswered@[i]
                == before.unanswered@[i + before.unanswered@.len() - after.unanswered@.len()],
        after.requested_range@.contains(x) <==> state.coming_ranges@.contains(x) || exists|i: int|
            0 <= i < after.unanswered@.len() && (#[trigger] after.unanswered@[i]).start <= x
                < after.unanswered@[i].end,
{
    let rest = after.unanswered@;
    assert forall|i: int| 0 <= i < rest.len() implies rest[i] == before.unanswered@[answered(
        before,
        state,
    ) + i] by {}
    assert(before.unanswered@.skip(0) =~= before.unanswered@);
    state.coming_ranges.law_entries_are_ordered();
    entries::law_cover_adds_all_ranges(state.coming_ranges.entries(), rest);
    assert(after.requested_range@.contains(x) <==> entries::holds(
        after.requested_range.entries(),
        x,
    ));
    assert(state.coming_ranges@.contains(x) <==> entries::holds(
        state.coming_ranges.entries(),
        x,
    ));
}

/// What a read starts with and which events can come: a range that was given for the read, from
/// the position on and within the file.
pub proof fn law_which_reads_can_come(
    reader: AsyncHttpRangeReader,
    remaining: u64,
    range: Range<u64>,
    state: StreamerState,
)
    ensures
        (ReadEvent::Started { remaining }).acceptable(reader) <==> reader.streamer_state.error is Some
            || reader.pos + remaining <= u64::MAX,
        (ReadEvent::RequestSent { range }).acceptable(reader) <==> reader.pos == range.start
            && range.start < range.end && range.end <= reader.len,
        (ReadEvent::StateArrived { range, state }).acceptable(reader) <==> reader.pos == range.start
            && range.start < range.end && range.end <= reader.len && state.wf(),
        (ReadEvent::Started { remaining }).range(reader).start == reader.pos,
        (ReadEvent::Started { remaining }).range(reader).end == (if reader.pos + remaining
            <= reader.len {
            reader.pos + remaining
        } else {
            reader.len as int
        }),
        (ReadEvent::RequestSent { range }).range(reader) == range,
        (ReadEvent::StateArrived { range, state }).range(reader) == range,
{
}

/// What a response with a part of the file starts a reader with. A part at the end counts as
/// requested, all of it and nothing else.
pub proof fn law_how_tail_responses_start(
    header: Seq<char>,
    first_byte: u64,
    last_byte: u64,
    complete_length: u64,
    r: Result<(AsyncHttpRangeReader, u64), AsyncHttpRangeReaderError>,
    x: int,
)
    requires
        first_byte <= last_byte < complete_length,
        tail_outcome(
            header,
            Some(ContentRange::Bytes { first_byte, last_byte, complete_length }),
            r,
        ),
    ensures
        r matches Ok((reader, position)) && {
            let from = if last_byte == complete_length - 1 {
                first_byte as int
            } else {
                complete_length - (last_byte - first_byte)
            };
            &&& position == first_byte
            &&& reader.pos == 0
            &&& reader.len == complete_length
            &&& reader.unanswered@.len() == 0
            &&& reader.requested_range@.contains(x) <==> from <= x < complete_length
            &&& reader.streamer_state.requested_ranges@.contains(x) <==> from <= x < complete_length
            &&& reader.streamer_state.coming_ranges@.contains(x) <==> from <= x < complete_length
            &&& reader.requested_range.entries().len() == 1
            &&& reader.streamer_state.requested_ranges.entries().len() == (if from
                < complete_length {
                1int
            } else {
                0
            })
            &&& reader.streamer_state.requested_time == 0
            &&& reader.streamer_state.taken_requests == 0
            &&& reader.streamer_state.backward_memory_limit == 20 * 1024 * 1024
            &&& reader.streamer_state.error is None
        },
{
    let reader = r->Ok_0.0;
    let from = if last_byte == complete_length - 1 {
        first_byte as int
    } else {
        complete_length - (last_byte - first_byte)
    };
    entries::lemma_holds_one((from as u64, (complete_length - 1) as u64), x);
    assert(reader.requested_range@.contains(x) <==> entries::holds(
        reader.requested_range.entries(),
        x,
    ));
    assert(reader.streamer_state.requested_ranges@.contains(x) <==> entries::holds(
        reader.streamer_state.requested_ranges.entries(),
        x,
    ));
    assert(reader.streamer_state.coming_ranges@.contains(x) <==> entries::holds(
        reader.streamer_state.coming_ranges.entries(),
        x,
    ));
}

/// Which responses to a request for the end of the file start no reader, and why.
pub proof fn law_how_tail_responses_fail(
    header: Seq<char>,
    range: ContentRange,
    r: Result<(AsyncHttpRangeReader, u64), AsyncHttpRangeReaderError>,
)
    ensures
        tail_response_outcome(None, r) ==> r
            matches Err(AsyncHttpRangeReaderError::ContentRangeMissing),
        tail_response_outcome(Some(header), r) <==> tail_outcome(
            header,
            content_range::parsed_content_range(header),
            r,
        ),
        tail_outcome(header, None, r) ==> (r
            matches Err(AsyncHttpRangeReaderError::ContentRangeParser(text)) && text@ == header),
        tail_outcome(header, Some(range), r) && !(range is Bytes) ==> r
            matches Err(AsyncHttpRangeReaderError::HttpRangeRequestUnsupported),
{
}

/// Which responses to a HEAD request start a reader, and with what, and why others do not.
pub proof fn law_how_head_responses_start(
    accept_ranges: Option<Seq<char>>,
    content_length: Option<Seq<char>>,
    r: Result<AsyncHttpRangeReader, AsyncHttpRangeReaderError>,
    x: int,
)
    requires
        head_response_outcome(accept_ranges, content_length, r),
    ensures
        ({
            let supported = accept_ranges == Some(seq!['b', 'y', 't', 'e', 's']);
            let length = match content_length {
                Some(text) => decimal::numeral(text),
                None => None,
            };
            &&& !supported ==> (r
                matches Err(AsyncHttpRangeReaderError::HttpRangeRequestUnsupported))
            &&& supported && (length is None || length.unwrap() > u64::MAX) ==> (r
                matches Err(AsyncHttpRangeReaderError::ContentLengthMissing))
            &&& supported && length is Some && length.unwrap() <= u64::MAX ==> (r
                matches Ok(reader) && {
                &&& reader.pos == 0
                &&& reader.len == length.unwrap()
                &&& reader.unanswered@.len() == 0
                &&& reader.requested_range.entries().len() == 0
                &&& !reader.requested_range@.contains(x)
                &&& reader.streamer_state.requested_ranges.entries().len() == 0
                &&& reader.streamer_state.coming_ranges.entries().len() == 0
                &&& reader.streamer_state.requested_time == 0
                &&& reader.streamer_state.taken_requests == 0
                &&& reader.streamer_state.backward_memory_limit == 20 * 1024 * 1024
                &&& reader.streamer_state.error is None
            })
        }),
{
    reveal_strlit("bytes");
    assert("bytes"@ =~= seq!['b', 'y', 't', 'e', 's']);
}

/// The text of a header is its own, and there is none where there is no header.
pub proof fn law_texts_of_headers(text: &str, owned: String)
    ensures
        text_of(Some(text)) == Some(text@),
        text_of(None) is None,
        owned_text_of(Some(owned)) == Some(owned@),
        owned_text_of(None) is None,
{
}

} // verus!
