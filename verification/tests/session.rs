use std::collections::VecDeque;
use std::ops::Range;

use async_http_range_reader::memory_map::MemoryMap;
use async_http_range_reader::reader::{ReadAction, ReadEvent, SeekPosition};
use async_http_range_reader::state::StreamerState;
use async_http_range_reader::streamer::{Streamer, StreamerAction, StreamerEvent};
use async_http_range_reader::AsyncHttpRangeReader;

/// A reader, its streaming task, and a server that answers with chunks of a size.
struct Session {
    file: Vec<u8>,
    size: usize,
    at: usize,
    map: MemoryMap,
    reader: AsyncHttpRangeReader,
    streamer: Streamer,
    next: Option<StreamerEvent>,
    queue: VecDeque<Range<u64>>,
    news: Option<StreamerState>,
    sent: usize,
}

impl Session {
    fn new(file: Vec<u8>, size: usize, limit: u64, tail: Option<usize>) -> Self {
        let len = file.len() as u64;
        let (reader, initial) = match tail {
            Some(n) => {
                let start = file.len() - n;
                let header = format!("bytes {}-{}/{}", start, file.len() - 1, file.len());
                let (reader, start) =
                    AsyncHttpRangeReader::from_tail_response(Some(&header)).unwrap();
                (reader, Some(start))
            }
            None => {
                let length = len.to_string();
                let reader =
                    AsyncHttpRangeReader::from_head_response(Some("bytes"), Some(&length));
                (reader.unwrap(), None)
            }
        };
        let mut streamer = Streamer::new();
        streamer.state.backward_memory_limit = limit;
        Session {
            at: initial.unwrap_or(0) as usize,
            size,
            map: MemoryMap::new(len),
            news: Some(reader.streamer_state.clone()),
            reader,
            streamer,
            next: Some(StreamerEvent::Started { initial }),
            queue: VecDeque::new(),
            sent: 0,
            file,
        }
    }

    /// Lets the task do one thing. Tells whether there was anything to do.
    fn work(&mut self) -> bool {
        let event = match self.next.take() {
            Some(event) => event,
            None => match self.queue.pop_front() {
                Some(range) => StreamerEvent::Requested { range },
                None => return false,
            },
        };
        assert!(self.streamer.accepts(&event, self.map.len()));
        self.next = match self.streamer.run_streamer(&mut self.map, event) {
            StreamerAction::AwaitRequest => None,
            StreamerAction::OpenRange(header) => {
                let start = header.trim_start_matches("bytes=").trim_end_matches('-');
                self.at = start.parse().unwrap();
                Some(StreamerEvent::Opened { partial: true })
            }
            StreamerAction::ReadChunk if self.at == self.file.len() => {
                Some(StreamerEvent::BodyEnded)
            }
            StreamerAction::ReadChunk => {
                let end = self.file.len().min(self.at + self.size);
                let bytes = self.file[self.at..end].to_vec().into();
                self.at = end;
                Some(StreamerEvent::Chunk { bytes })
            }
            StreamerAction::Publish => {
                self.news = Some(self.streamer.state.clone());
                Some(StreamerEvent::Published { delivered: true })
            }
            other => panic!("{other:?}"),
        };
        true
    }

    /// Reads once.
    fn read(&mut self, remaining: u64) -> Vec<u8> {
        let mut event = ReadEvent::Started { remaining };
        loop {
            event = match self.reader.poll_read(&self.map, event) {
                ReadAction::Deliver(bytes) => return bytes,
                ReadAction::Finish => return Vec::new(),
                ReadAction::RequestRange(range) => {
                    self.queue.push_back(range.clone());
                    self.sent += 1;
                    ReadEvent::RequestSent { range }
                }
                ReadAction::AwaitState(range) => {
                    while self.news.is_none() {
                        assert!(self.work(), "waits for {range:?} in vain");
                    }
                    let state = self.news.take().unwrap();
                    ReadEvent::StateArrived { range, state }
                }
                other => panic!("{other:?}"),
            };
        }
    }

    fn read_at(&mut self, pos: u64, n: u64) -> Vec<u8> {
        self.reader.start_seek(SeekPosition::Start(pos));
        let mut bytes = Vec::new();
        while (bytes.len() as u64) < n {
            let more = self.read(n - bytes.len() as u64);
            assert!(!more.is_empty());
            bytes.extend(more);
        }
        bytes
    }
}

fn file() -> Vec<u8> {
    (0..1000u32).map(|i| (i * 7 % 251) as u8).collect()
}

#[test]
fn the_whole_file_is_read() {
    for tail in [None, Some(1), Some(64), Some(1000)] {
        let mut session = Session::new(file(), 13, 50, tail);
        let mut contents = Vec::new();
        loop {
            let bytes = session.read(64);
            if bytes.is_empty() {
                break;
            }
            contents.extend(bytes);
        }
        assert_eq!(contents, file());
    }
}

#[test]
fn bytes_are_read_in_any_order() {
    let file = file();
    for size in [1, 3, 10, 100, 2000] {
        let mut session = Session::new(file.clone(), size, 20, Some(100));
        let mut pos = 17u64;
        for _ in 0..200 {
            pos = (pos * 331 + 97) % 980;
            let n = 1 + pos % 19;
            let expected = &file[pos as usize..(pos + n) as usize];
            assert_eq!(session.read_at(pos, n), expected);
        }
    }
}

#[test]
fn the_tail_is_read_again_after_it_was_freed() {
    let file = file();
    let mut session = Session::new(file.clone(), 10, 20, Some(100));
    assert_eq!(session.read_at(950, 50), &file[950..]);
    assert_eq!(session.sent, 0);
    assert_eq!(session.read_at(0, 50), &file[..50]);
    assert_eq!(session.map.get(950..1000), None);
    assert_eq!(session.read_at(950, 50), &file[950..]);
    assert_eq!(session.sent, 2);
}

#[test]
fn a_range_of_held_and_missing_bytes_is_read() {
    let file = file();
    let mut session = Session::new(file.clone(), 1, 100, None);
    assert_eq!(session.read_at(30, 10), &file[30..40]);
    assert_eq!(session.read_at(28, 15), &file[28..43]);
}

#[test]
fn a_prefetched_range_is_read_without_a_request() {
    let file = file();
    let mut session = Session::new(file.clone(), 16, 100, None);
    let range = session.reader.prefetch(100..300).unwrap();
    session.queue.push_back(range.clone());
    session.reader.request_sent(range);
    for pos in (100..300).step_by(20) {
        let expected = &file[pos as usize..pos as usize + 20];
        assert_eq!(session.read_at(pos, 20), expected);
    }
    assert_eq!(session.sent, 0);
    assert_eq!(session.reader.requested_ranges(None), vec![100..300]);
    assert_eq!(session.reader.requested_time(), 1);
}
