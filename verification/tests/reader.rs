use async_http_range_reader::content_range::ContentRange;
use async_http_range_reader::memory_map::MemoryMap;
use async_http_range_reader::reader::{ReadAction, ReadEvent, ResponseHead, SeekPosition};
use async_http_range_reader::sparse_range::SparseRange;
use async_http_range_reader::state::StreamerState;
use async_http_range_reader::{
    AsyncHttpRangeReader, AsyncHttpRangeReaderError, CheckSupportMethod,
};

fn reader(len: u64) -> AsyncHttpRangeReader {
    AsyncHttpRangeReader::from_head_response(Some("bytes"), Some(&len.to_string())).unwrap()
}

fn map_with(len: u64, offset: u64, bytes: Vec<u8>) -> MemoryMap {
    let mut map = MemoryMap::new(len);
    map.store(offset, bytes.into());
    map
}

#[test]
fn tail_request_asks_for_the_end() {
    assert_eq!(
        AsyncHttpRangeReader::initial_tail_request(8192),
        "bytes=-8192"
    );
    assert_eq!(AsyncHttpRangeReader::initial_tail_request(0), "bytes=-0");
    assert_eq!(
        AsyncHttpRangeReader::initial_tail_request(u64::MAX),
        "bytes=-18446744073709551615"
    );
}

#[test]
fn tail_response_gives_length_and_range() {
    let (reader, position) =
        AsyncHttpRangeReader::from_tail_response(Some("bytes 2455803-2463994/2463995")).unwrap();
    assert_eq!(position, 2_455_803);
    assert_eq!(reader.len(), 2_463_995);
    assert_eq!(reader.pos, 0);
    assert_eq!(
        reader.requested_range.covered_ranges(),
        vec![2_455_803..2_463_995]
    );
    assert_eq!(
        reader.streamer_state.requested_ranges.covered_ranges(),
        vec![2_455_803..2_463_995]
    );
    assert_eq!(reader.requested_time(), 0);
    assert_eq!(reader.streamer_state.backward_memory_limit, 20_971_520);
    assert!(reader.streamer_state.error.is_none());
}

#[test]
fn tail_response_of_one_byte() {
    let (reader, position) =
        AsyncHttpRangeReader::from_tail_response(Some("bytes 9-9/10")).unwrap();
    assert_eq!(position, 9);
    assert_eq!(reader.requested_range.covered_ranges(), vec![9..10]);
    assert_eq!(
        reader.streamer_state.requested_ranges.covered_ranges(),
        vec![9..10]
    );
    assert_eq!(
        reader.streamer_state.coming_ranges.covered_ranges(),
        vec![9..10]
    );
}

#[test]
fn a_part_before_the_end_counts_by_its_length() {
    let (reader, position) =
        AsyncHttpRangeReader::from_tail_response(Some("bytes 0-4/100")).unwrap();
    assert_eq!(position, 0);
    assert_eq!(reader.requested_range.covered_ranges(), vec![96..100]);
    assert_eq!(
        reader.streamer_state.requested_ranges.covered_ranges(),
        vec![96..100]
    );
    let (reader, position) =
        AsyncHttpRangeReader::from_tail_response(Some("bytes 3-3/100")).unwrap();
    assert_eq!(position, 3);
    assert_eq!(reader.requested_range.covered_ranges(), vec![100..100]);
    assert_eq!(
        reader.streamer_state.requested_ranges,
        SparseRange::default()
    );
}

#[test]
fn tail_response_without_header() {
    assert!(matches!(
        AsyncHttpRangeReader::from_tail_response(None),
        Err(AsyncHttpRangeReaderError::ContentRangeMissing)
    ));
}

#[test]
fn tail_response_that_is_not_understood() {
    for header in ["", "bytes", "bytes 5-2/10", "bytes 2-10/10", "pages 1-2/3"] {
        match AsyncHttpRangeReader::from_tail_response(Some(header)) {
            Err(AsyncHttpRangeReaderError::ContentRangeParser(text)) => assert_eq!(text, header),
            other => panic!("{other:?}"),
        }
    }
}

#[test]
fn tail_response_without_range_support() {
    for header in ["bytes 2-5/*", "bytes */10"] {
        assert!(matches!(
            AsyncHttpRangeReader::from_tail_response(Some(header)),
            Err(AsyncHttpRangeReaderError::HttpRangeRequestUnsupported)
        ));
    }
}

#[test]
fn content_range_decides() {
    let range = ContentRange::Bytes {
        first_byte: 92,
        last_byte: 99,
        complete_length: 100,
    };
    let (reader, position) =
        AsyncHttpRangeReader::from_content_range("", Some(range)).unwrap();
    assert_eq!(position, 92);
    assert_eq!(reader.len(), 100);
    assert_eq!(reader.requested_range.covered_ranges(), vec![92..100]);
    assert!(matches!(
        AsyncHttpRangeReader::from_content_range("abc", None),
        Err(AsyncHttpRangeReaderError::ContentRangeParser(text)) if text == "abc"
    ));
    assert!(matches!(
        AsyncHttpRangeReader::from_content_range(
            "",
            Some(ContentRange::Unsatisfied { complete_length: 3 })
        ),
        Err(AsyncHttpRangeReaderError::HttpRangeRequestUnsupported)
    ));
}

#[test]
fn head_response_gives_length() {
    let reader =
        AsyncHttpRangeReader::from_head_response(Some("bytes"), Some("2463995")).unwrap();
    assert_eq!(reader.len(), 2_463_995);
    assert_eq!(reader.poll_complete(), 0);
    assert_eq!(reader.requested_range, SparseRange::default());
    let lengths = [
        ("0", 0),
        ("+17", 17),
        ("007", 7),
        ("18446744073709551615", u64::MAX),
    ];
    for (text, len) in lengths {
        let reader = AsyncHttpRangeReader::from_head_response(Some("bytes"), Some(text)).unwrap();
        assert_eq!(reader.len(), len);
        assert_eq!(text.parse::<u64>().unwrap(), len);
    }
}

#[test]
fn head_response_without_range_support() {
    for header in [None, Some("none"), Some("Bytes"), Some("")] {
        assert!(matches!(
            AsyncHttpRangeReader::from_head_response(header, Some("5")),
            Err(AsyncHttpRangeReaderError::HttpRangeRequestUnsupported)
        ));
    }
}

#[test]
fn head_response_without_length() {
    let lengths = [
        None,
        Some(""),
        Some("+"),
        Some("-5"),
        Some("++5"),
        Some(" 5"),
        Some("5a"),
        Some("18446744073709551616"),
        Some("99999999999999999999999"),
    ];
    for length in lengths {
        assert!(matches!(
            AsyncHttpRangeReader::from_head_response(Some("bytes"), length),
            Err(AsyncHttpRangeReaderError::ContentLengthMissing)
        ));
        assert!(length.is_none_or(|text| text.parse::<u64>().is_err()));
    }
}

#[test]
fn new_goes_by_the_method() {
    let response = ResponseHead {
        content_range: Some("bytes 5-9/10".to_string()),
        accept_ranges: Some("bytes".to_string()),
        content_length: Some("5".to_string()),
    };
    let (tail, position) =
        AsyncHttpRangeReader::new(CheckSupportMethod::NegativeRangeRequest(5), &response).unwrap();
    assert_eq!(tail.len(), 10);
    assert_eq!(position, Some(5));
    let (head, position) =
        AsyncHttpRangeReader::new(CheckSupportMethod::Head, &response).unwrap();
    assert_eq!(head.len(), 5);
    assert_eq!(position, None);
    let empty = ResponseHead {
        content_range: None,
        accept_ranges: None,
        content_length: None,
    };
    assert!(matches!(
        AsyncHttpRangeReader::new(CheckSupportMethod::NegativeRangeRequest(5), &empty),
        Err(AsyncHttpRangeReaderError::ContentRangeMissing)
    ));
    assert!(matches!(
        AsyncHttpRangeReader::new(CheckSupportMethod::Head, &empty),
        Err(AsyncHttpRangeReaderError::HttpRangeRequestUnsupported)
    ));
}

#[test]
fn seeks_add_up() {
    let mut reader = reader(1000);
    reader.start_seek(SeekPosition::Start(7));
    assert_eq!(reader.poll_complete(), 7);
    reader.start_seek(SeekPosition::Current(5));
    assert_eq!(reader.poll_complete(), 12);
    reader.start_seek(SeekPosition::Current(-5));
    assert_eq!(reader.poll_complete(), 7);
    reader.start_seek(SeekPosition::End(-100));
    assert_eq!(reader.poll_complete(), 900);
    reader.start_seek(SeekPosition::End(100));
    assert_eq!(reader.poll_complete(), 1100);
}

#[test]
fn seeks_wrap_and_saturate_like_signed_numbers() {
    let mut reader = reader(1000);
    reader.start_seek(SeekPosition::End(-1001));
    assert_eq!(reader.pos, (-1i64) as u64);
    reader.start_seek(SeekPosition::Current(i64::MIN));
    assert_eq!(reader.pos, i64::MIN as u64);
    reader.start_seek(SeekPosition::Start(5));
    reader.start_seek(SeekPosition::Current(i64::MAX));
    assert_eq!(reader.pos, i64::MAX as u64);
    reader.start_seek(SeekPosition::Start(u64::MAX));
    reader.start_seek(SeekPosition::Current(3));
    assert_eq!(reader.pos, (u64::MAX as i64).saturating_add(3) as u64);
}

#[test]
fn prefetch_stays_in_the_file_and_asks_once() {
    let mut reader = reader(100);
    assert_eq!(reader.prefetch(90..200), Some(90..100));
    assert_eq!(reader.prefetch(100..200), None);
    assert_eq!(reader.prefetch(5..5), None);
    let (start, end) = (7, 3);
    assert_eq!(reader.prefetch(start..end), None);
    reader.request_sent(90..100);
    assert_eq!(reader.requested_range.covered_ranges(), vec![90..100]);
    assert_eq!(reader.prefetch(92..200), None);
    assert_eq!(reader.prefetch(80..95), Some(80..95));
}

#[test]
fn a_read_asks_waits_and_delivers() {
    let mut reader = reader(10);
    let empty = MemoryMap::new(10);
    let action = reader.poll_read(&empty, ReadEvent::Started { remaining: 4 });
    assert!(matches!(&action, ReadAction::RequestRange(range) if *range == (0..4)));
    let action = reader.poll_read(&empty, ReadEvent::RequestSent { range: 0..4 });
    assert!(matches!(&action, ReadAction::AwaitState(range) if *range == (0..4)));
    assert!(reader.requested_range.is_covered(0..4));
    let state = StreamerState {
        requested_ranges: SparseRange::from_range(0..10),
        coming_ranges: SparseRange::from_range(0..10),
        taken_requests: 1,
        requested_time: 1,
        ..StreamerState::default()
    };
    let map = map_with(10, 0, (0..10).collect());
    let action = reader.poll_read(&map, ReadEvent::StateArrived { range: 0..4, state });
    assert!(matches!(&action, ReadAction::Deliver(bytes) if *bytes == vec![0, 1, 2, 3]));
    assert_eq!(reader.pos, 4);
    assert_eq!(reader.requested_time(), 1);
    assert_eq!(reader.requested_range.covered_ranges(), vec![0..10]);
}

#[test]
fn held_ranges_are_read_from_memory() {
    let mut reader = reader(10);
    reader.request_sent(0..10);
    let map = map_with(10, 0, (0..10).collect());
    let mut contents = Vec::new();
    loop {
        match reader.poll_read(&map, ReadEvent::Started { remaining: 3 }) {
            ReadAction::Deliver(bytes) => contents.extend(bytes),
            ReadAction::Finish => break,
            other => panic!("{other:?}"),
        }
    }
    assert_eq!(contents, (0..10).collect::<Vec<u8>>());
    assert_eq!(reader.pos, 10);
}

#[test]
fn the_tail_is_not_prefetched_again() {
    let (reader, _) =
        AsyncHttpRangeReader::from_tail_response(Some("bytes 92-99/100")).unwrap();
    assert_eq!(reader.prefetch(92..100), None);
    assert_eq!(reader.prefetch(91..100), Some(91..100));
}

#[test]
fn freed_ranges_are_asked_for_again() {
    let mut reader = reader(100);
    reader.request_sent(0..10);
    // The range was taken up and has come, but is freed now.
    let state = StreamerState {
        requested_ranges: SparseRange::from_ranges(vec![0..10, 50..60]),
        coming_ranges: SparseRange::from_range(50..60),
        taken_requests: 1,
        requested_time: 2,
        ..StreamerState::default()
    };
    let map = map_with(100, 50, vec![50, 51]);
    assert_eq!(
        reader.requested_ranges(Some(state.clone())),
        vec![0..10, 50..60]
    );
    let action = reader.poll_read(&map, ReadEvent::Started { remaining: 4 });
    assert!(matches!(&action, ReadAction::RequestRange(range) if *range == (0..4)));

    // The same while the read waits.
    reader.request_sent(0..4);
    let action = reader.poll_read(&map, ReadEvent::Started { remaining: 4 });
    assert!(matches!(&action, ReadAction::AwaitState(range) if *range == (0..4)));
    let state = StreamerState {
        taken_requests: 2,
        ..state
    };
    let action = reader.poll_read(&map, ReadEvent::StateArrived { range: 0..4, state });
    assert!(matches!(&action, ReadAction::RequestRange(range) if *range == (0..4)));
}

#[test]
fn what_is_not_taken_up_yet_is_still_coming() {
    let mut reader = reader(100);
    let map = MemoryMap::new(100);
    reader.request_sent(0..10);
    reader.request_sent(20..30);
    reader.request_sent(40..50);
    let state = StreamerState {
        coming_ranges: SparseRange::from_range(2..10),
        taken_requests: 1,
        ..StreamerState::default()
    };
    reader.start_seek(SeekPosition::Start(20));
    let action = reader.poll_read(&map, ReadEvent::StateArrived { range: 20..30, state });
    assert!(matches!(&action, ReadAction::AwaitState(range) if *range == (20..30)));
    assert_eq!(reader.unanswered, vec![20..30, 40..50]);
    assert_eq!(
        reader.requested_range.covered_ranges(),
        vec![2..10, 20..30, 40..50]
    );
    let state = StreamerState {
        taken_requests: 9,
        ..StreamerState::default()
    };
    assert_eq!(reader.requested_ranges(Some(state)), vec![]);
    assert!(reader.unanswered.is_empty());
    assert_eq!(reader.requested_range, SparseRange::default());
}

#[test]
fn a_read_at_the_end_is_done() {
    let mut reader = reader(10);
    let map = MemoryMap::new(10);
    reader.start_seek(SeekPosition::Start(10));
    let action = reader.poll_read(&map, ReadEvent::Started { remaining: 3 });
    assert!(matches!(action, ReadAction::Finish));
    reader.start_seek(SeekPosition::Start(12));
    let action = reader.poll_read(&map, ReadEvent::Started { remaining: 3 });
    assert!(matches!(action, ReadAction::Finish));
    reader.start_seek(SeekPosition::Start(2));
    let action = reader.poll_read(&map, ReadEvent::Started { remaining: 0 });
    assert!(matches!(action, ReadAction::Finish));
}

#[test]
fn errors_stay() {
    let mut reader = reader(10);
    let map = map_with(10, 0, (0..10).collect());
    reader.request_sent(0..10);
    let state = StreamerState {
        error: Some(AsyncHttpRangeReaderError::TransportError("cut".to_string())),
        ..StreamerState::default()
    };
    for _ in 0..2 {
        let state = state.clone();
        let action = reader.poll_read(&map, ReadEvent::StateArrived { range: 0..4, state });
        assert!(matches!(
            &action,
            ReadAction::Fail(AsyncHttpRangeReaderError::TransportError(text)) if text == "cut"
        ));
        let action = reader.poll_read(&map, ReadEvent::Started { remaining: 3 });
        assert!(matches!(
            &action,
            ReadAction::Fail(AsyncHttpRangeReaderError::TransportError(text)) if text == "cut"
        ));
    }
    assert_eq!(reader.pos, 0);
}

#[test]
fn requested_ranges_are_those_of_the_task() {
    let (mut reader, _) =
        AsyncHttpRangeReader::from_tail_response(Some("bytes 5-9/10")).unwrap();
    assert_eq!(reader.requested_ranges(None), vec![5..10]);
    // What the task starts out with is what the reader knows.
    let seed = reader.streamer_state.clone();
    assert_eq!(reader.requested_ranges(Some(seed)), vec![5..10]);
    let news = StreamerState {
        requested_ranges: SparseRange::from_ranges(vec![5..10, 0..2]),
        coming_ranges: SparseRange::from_ranges(vec![0..2, 7..10]),
        requested_time: 2,
        ..StreamerState::default()
    };
    assert_eq!(reader.requested_ranges(Some(news)), vec![0..2, 5..10]);
    assert_eq!(reader.requested_time(), 2);
    assert_eq!(reader.requested_ranges(None), vec![0..2, 5..10]);
    assert_eq!(
        reader.requested_range.covered_ranges(),
        vec![0..2, 7..10]
    );
}

#[test]
fn errors_are_cloned_as_they_are() {
    let errors = [
        AsyncHttpRangeReaderError::HttpRangeRequestUnsupported,
        AsyncHttpRangeReaderError::IoError("a".to_string()),
        AsyncHttpRangeReaderError::TransportError("b".to_string()),
        AsyncHttpRangeReaderError::ContentRangeMissing,
        AsyncHttpRangeReaderError::ContentRangeParser("c".to_string()),
        AsyncHttpRangeReaderError::ContentLengthMissing,
    ];
    for error in errors {
        assert_eq!(format!("{:?}", error.clone()), format!("{error:?}"));
    }
}
