//! Random access to a file that is served over HTTP with range requests.
//!
//! A reader asks for ranges of the file, and a streaming task downloads what is missing of them
//! into a sparse memory map that the two share. This library holds what they decide and compute:
//!
//! - [`sparse_range`]: a set of offsets, kept as a sorted list of ranges,
//! - [`memory_map`]: the bytes of a file, as far as they are held in memory,
//! - [`reader`]: where a reader stands, what it asks for, and what it delivers,
//! - [`streamer`]: which requests the task makes, and what it does with the responses.
//!
//! Both reader and task are told what has happened and say what is to be done next. Sockets,
//! channels and wake-ups are left to their users.

mod bisect;
pub mod bounds;
pub mod buffer;
pub mod chunks;
pub mod content_range;
pub mod decimal;
pub mod entries;
mod error;
pub mod memory_map;
mod pieces;
pub mod reader;
pub mod sparse_range;
pub mod state;
pub mod streamer;
mod sweep;
mod walk;

pub use error::AsyncHttpRangeReaderError;
pub use reader::{AsyncHttpRangeReader, CheckSupportMethod};
