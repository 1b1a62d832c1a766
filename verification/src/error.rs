//! What can go wrong.

use vstd::prelude::*;

verus! {

/// An error of the reader or of the task that streams for it.
#[derive(Debug)]
pub enum AsyncHttpRangeReaderError {
    /// The server does not support range requests.
    HttpRangeRequestUnsupported,
    /// A request did not get through.
    IoError(String),
    /// A response broke off.
    TransportError(String),
    /// A response to a range request does not say which range it holds.
    ContentRangeMissing,
    /// A response says which range it holds in words that are not understood.
    ContentRangeParser(String),
    /// A response does not say how long the file is.
    ContentLengthMissing,
}

impl Clone for AsyncHttpRangeReaderError {
    fn clone(&self) -> (r: Self)
        ensures
            r == *self,
    {
        match self {
            Self::HttpRangeRequestUnsupported => Self::HttpRangeRequestUnsupported,
            Self::IoError(message) => Self::IoError(message.clone()),
            Self::TransportError(message) => Self::TransportError(message.clone()),
            Self::ContentRangeMissing => Self::ContentRangeMissing,
            Self::ContentRangeParser(header) => Self::ContentRangeParser(header.clone()),
            Self::ContentLengthMissing => Self::ContentLengthMissing,
        }
    }
}

} // verus!
