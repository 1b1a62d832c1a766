# async_http_range_reader

Random access to a file that is served over HTTP, by range requests.

A reader asks for ranges of the file. A task in the background downloads what is missing of them
and puts it into a memory map, from which the reader is served. Bytes far behind the current
position are freed, and asked for again when they are read again.

- `src/` is the verified library. It holds all that is decided and computed: the sets of offsets
  (`sparse_range.rs`, over `entries.rs`), the memory map (`memory_map.rs`, over `chunks.rs`), the
  reader (`reader.rs`) and the streaming task (`streamer.rs`). Reader and task are state machines:
  they are told what has happened and say what is to be done next.
- `app/` does what they say with `reqwest` and `tokio`, and offers the reader as `AsyncRead` and
  `AsyncSeek`.
- `tests/` runs the library on values.

The laws of the library are the public proof functions whose names begin with `law_`.
