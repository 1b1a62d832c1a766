use async_http_range_reader::memory_map::MemoryMap;
use async_http_range_reader::streamer::{Phase, Streamer, StreamerAction, StreamerEvent};
use async_http_range_reader::AsyncHttpRangeReaderError;

fn step(streamer: &mut Streamer, map: &mut MemoryMap, event: StreamerEvent) -> StreamerAction {
    assert!(streamer.accepts(&event, map.len()));
    streamer.run_streamer(map, event)
}

fn chunk(bytes: Vec<u8>) -> StreamerEvent {
    StreamerEvent::Chunk { bytes: bytes.into() }
}

/// Runs the task on a file whose server answers with chunks of a size, until it waits for
/// another request. Gives the headers of the requests that it made.
fn serve(
    streamer: &mut Streamer,
    map: &mut MemoryMap,
    file: &[u8],
    size: usize,
    mut event: StreamerEvent,
    mut at: usize,
) -> Vec<String> {
    let mut headers = Vec::new();
    loop {
        event = match step(streamer, map, event) {
            StreamerAction::OpenRange(header) => {
                at = header
                    .strip_prefix("bytes=")
                    .and_then(|rest| rest.strip_suffix('-'))
                    .unwrap()
                    .parse()
                    .unwrap();
                headers.push(header);
                StreamerEvent::Opened { partial: true }
            }
            StreamerAction::ReadChunk if at == file.len() => StreamerEvent::BodyEnded,
            StreamerAction::ReadChunk => {
                let end = file.len().min(at + size);
                let bytes = file[at..end].to_vec();
                at = end;
                chunk(bytes)
            }
            StreamerAction::Publish => StreamerEvent::Published { delivered: true },
            StreamerAction::AwaitRequest => return headers,
            other => panic!("{other:?}"),
        };
    }
}

fn started(map: &mut MemoryMap) -> Streamer {
    let mut streamer = Streamer::new();
    let action = step(&mut streamer, map, StreamerEvent::Started { initial: None });
    assert!(matches!(action, StreamerAction::AwaitRequest));
    streamer
}

#[test]
fn the_initial_response_is_streamed() {
    let file: Vec<u8> = (0..100).collect();
    let mut map = MemoryMap::new(100);
    let mut streamer = Streamer::new();
    let event = StreamerEvent::Started { initial: Some(80) };
    let headers = serve(&mut streamer, &mut map, &file, 7, event, 80);
    assert_eq!(headers, Vec::<String>::new());
    assert_eq!(map.get(80..100).unwrap(), file[80..]);
    assert_eq!(streamer.state.requested_time, 1);
    assert_eq!(
        streamer.state.requested_ranges.covered_ranges(),
        vec![80..100]
    );
    // The initial response is given up.
    assert_eq!(streamer.position, None);
}

#[test]
fn only_missing_bytes_are_requested() {
    let file: Vec<u8> = (0..100).collect();
    let mut map = MemoryMap::new(100);
    map.store(30, file[30..40].to_vec().into());
    let mut streamer = started(&mut map);
    let event = StreamerEvent::Requested { range: 30..40 };
    assert!(serve(&mut streamer, &mut map, &file, 4, event, 0).is_empty());
    assert_eq!(streamer.state.requested_time, 0);

    let event = StreamerEvent::Requested { range: 28..43 };
    let headers = serve(&mut streamer, &mut map, &file, 1, event, 0);
    assert_eq!(headers, vec!["bytes=28-", "bytes=40-"]);
    assert_eq!(streamer.state.requested_time, 2);
    assert_eq!(
        streamer.state.requested_ranges.covered_ranges(),
        vec![28..30, 40..43]
    );
    assert_eq!(map.get(28..30).unwrap(), file[28..30]);
    assert_eq!(map.get(40..43).unwrap(), file[40..43]);
    // What was held behind the zone of the first response was freed with it, and does not count
    // as coming.
    assert_eq!(map.get(30..40), None);
    assert_eq!(
        streamer.state.coming_ranges.covered_ranges(),
        vec![28..30, 40..43]
    );
    assert_eq!(streamer.state.taken_requests, 2);
}

#[test]
fn an_open_response_is_read_on() {
    let file: Vec<u8> = (0..100).collect();
    let mut map = MemoryMap::new(100);
    let mut streamer = started(&mut map);
    let event = StreamerEvent::Requested { range: 10..15 };
    let headers = serve(&mut streamer, &mut map, &file, 4, event, 0);
    assert_eq!(headers, vec!["bytes=10-"]);
    // The last chunk has gone beyond the target.
    assert_eq!(streamer.position, Some(18));
    let event = StreamerEvent::Requested { range: 16..30 };
    let headers = serve(&mut streamer, &mut map, &file, 4, event, 18);
    assert_eq!(headers, Vec::<String>::new());
    assert_eq!(streamer.state.requested_time, 1);
    assert_eq!(map.get(10..30).unwrap(), file[10..30]);
    let event = StreamerEvent::Requested { range: 50..51 };
    let headers = serve(&mut streamer, &mut map, &file, 4, event, 30);
    assert_eq!(headers, vec!["bytes=50-"]);
    assert_eq!(streamer.state.requested_time, 2);
}

#[test]
fn a_whole_file_can_come_for_its_begin_only() {
    let mut map = MemoryMap::new(100);
    let mut streamer = started(&mut map);
    let action = step(
        &mut streamer,
        &mut map,
        StreamerEvent::Requested { range: 0..10 },
    );
    assert!(matches!(&action, StreamerAction::OpenRange(header) if header == "bytes=0-"));
    let action = step(&mut streamer, &mut map, StreamerEvent::Opened { partial: false });
    assert!(matches!(action, StreamerAction::ReadChunk));

    let mut streamer = started(&mut map);
    step(
        &mut streamer,
        &mut map,
        StreamerEvent::Requested { range: 5..10 },
    );
    let action = step(&mut streamer, &mut map, StreamerEvent::Opened { partial: false });
    assert!(matches!(action, StreamerAction::PublishAndStop));
    assert!(matches!(
        streamer.state.error,
        Some(AsyncHttpRangeReaderError::HttpRangeRequestUnsupported)
    ));
    assert!(matches!(streamer.phase, Phase::Stopped));
}

#[test]
fn failures_end_the_task() {
    let mut map = MemoryMap::new(100);
    let mut streamer = started(&mut map);
    step(
        &mut streamer,
        &mut map,
        StreamerEvent::Requested { range: 5..10 },
    );
    let message = "refused".to_string();
    let action = step(&mut streamer, &mut map, StreamerEvent::OpenFailed { message });
    assert!(matches!(action, StreamerAction::PublishAndStop));
    assert!(matches!(
        &streamer.state.error,
        Some(AsyncHttpRangeReaderError::IoError(text)) if text == "refused"
    ));

    let mut streamer = Streamer::new();
    step(
        &mut streamer,
        &mut map,
        StreamerEvent::Started { initial: Some(90) },
    );
    let message = "cut".to_string();
    let action = step(&mut streamer, &mut map, StreamerEvent::BodyFailed { message });
    assert!(matches!(action, StreamerAction::PublishAndStop));
    assert!(matches!(
        &streamer.state.error,
        Some(AsyncHttpRangeReaderError::TransportError(text)) if text == "cut"
    ));
}

#[test]
fn the_task_ends_when_nobody_listens() {
    let mut map = MemoryMap::new(100);
    let mut streamer = Streamer::new();
    step(
        &mut streamer,
        &mut map,
        StreamerEvent::Started { initial: Some(90) },
    );
    let action = step(&mut streamer, &mut map, chunk(vec![1]));
    assert!(matches!(action, StreamerAction::Publish));
    let action = step(
        &mut streamer,
        &mut map,
        StreamerEvent::Published { delivered: false },
    );
    assert!(matches!(action, StreamerAction::Stop));
    assert!(streamer.state.error.is_none());

    let mut streamer = started(&mut map);
    let action = step(&mut streamer, &mut map, StreamerEvent::RequestsClosed);
    assert!(matches!(action, StreamerAction::Stop));
    assert!(!streamer.accepts(&StreamerEvent::RequestsClosed, 100));
    assert!(!streamer.accepts(&StreamerEvent::BodyEnded, 100));
}

#[test]
fn a_response_that_ends_early_is_left() {
    let mut map = MemoryMap::new(100);
    let mut streamer = started(&mut map);
    step(
        &mut streamer,
        &mut map,
        StreamerEvent::Requested { range: 5..10 },
    );
    step(&mut streamer, &mut map, StreamerEvent::Opened { partial: true });
    step(&mut streamer, &mut map, chunk(vec![5, 6]));
    let action = step(
        &mut streamer,
        &mut map,
        StreamerEvent::Published { delivered: true },
    );
    assert!(matches!(action, StreamerAction::ReadChunk));
    let action = step(&mut streamer, &mut map, StreamerEvent::BodyEnded);
    assert!(matches!(action, StreamerAction::AwaitRequest));
    assert_eq!(streamer.position, Some(7));
    assert_eq!(map.get(5..7), Some(vec![5, 6]));
    // What the response has not given is not coming any more.
    assert_eq!(
        streamer.state.coming_ranges.covered_ranges(),
        vec![5..7]
    );
    assert_eq!(
        streamer.state.requested_ranges.covered_ranges(),
        vec![5..10]
    );
}

#[test]
fn bytes_far_behind_are_freed() {
    let mut map = MemoryMap::new(100);
    map.store(0, (0..20).collect::<Vec<u8>>().into());
    let mut streamer = started(&mut map);
    streamer.state.backward_memory_limit = 5;
    step(
        &mut streamer,
        &mut map,
        StreamerEvent::Requested { range: 20..30 },
    );
    step(&mut streamer, &mut map, StreamerEvent::Opened { partial: true });
    step(&mut streamer, &mut map, chunk(vec![20, 21]));
    assert_eq!(map.inner.record.covered_ranges(), vec![15..20, 20..22]);
    assert_eq!(map.get(15..22), Some((15..22).collect()));
    assert_eq!(map.inner.data_len, 7);
}

#[test]
fn events_that_cannot_come_are_told() {
    let map = MemoryMap::new(100);
    let mut streamer = Streamer::new();
    assert!(!streamer.accepts(&StreamerEvent::Started { initial: Some(100) }, map.len()));
    assert!(streamer.accepts(&StreamerEvent::Started { initial: Some(99) }, map.len()));
    assert!(!streamer.accepts(&StreamerEvent::Requested { range: 0..0 }, map.len()));
    assert!(!streamer.accepts(&chunk(vec![1]), map.len()));
    streamer.phase = Phase::Reading {
        target: 9,
        protect: 0,
        initial: false,
    };
    streamer.position = Some(0);
    assert!(!streamer.accepts(&chunk(vec![]), map.len()));
    assert!(streamer.accepts(&chunk(vec![1]), map.len()));
    assert!(!streamer.accepts(&chunk(vec![1]), 0));
}
