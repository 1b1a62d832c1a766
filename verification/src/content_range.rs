//! The `Content-Range` header, by the `http-content-range` crate.

use http_content_range::{
    ContentRange as Parsed, ContentRangeBytes, ContentRangeUnbound, ContentRangeUnsatisfied,
};
use vstd::prelude::*;

verus! {

/// What a `Content-Range` header says.
#[derive(Debug, Clone, Copy)]
pub enum ContentRange {
    /// The bytes from the first to the last one of a file of known length.
    Bytes { first_byte: u64, last_byte: u64, complete_length: u64 },
    /// The bytes from the first to the last one of a file of unknown length.
    UnboundBytes { first_byte: u64, last_byte: u64 },
    /// No bytes of a file of known length.
    Unsatisfied { complete_length: u64 },
}

impl ContentRange {
    /// Whether the bytes run forward and end within the file.
    pub open spec fn valid(&self) -> bool {
        match *self {
            ContentRange::Bytes { first_byte, last_byte, complete_length } => first_byte
                <= last_byte < complete_length,
            ContentRange::UnboundBytes { first_byte, last_byte } => first_byte <= last_byte,
            ContentRange::Unsatisfied { .. } => true,
        }
    }
}

/// What `http_content_range::ContentRange::parse` makes of a header.
pub uninterp spec fn parsed_content_range(header: Seq<char>) -> Option<ContentRange>;

/// Calls `http_content_range::ContentRange::parse`.
///
/// Of it we claim that the result rests on the text of the header alone, and that it gives no
/// range whose first byte is behind its last one or whose last byte is not within the file.
/// Which texts it accepts is left unsaid.
#[verifier::external_body]
pub(crate) fn parse_content_range(header: &str) -> (r: Option<ContentRange>)
    ensures
        r == parsed_content_range(header@),
        r matches Some(range) ==> range.valid(),
{
    match Parsed::parse(header)? {
        Parsed::Bytes(ContentRangeBytes { first_byte, last_byte, complete_length }) => Some(
            ContentRange::Bytes { first_byte, last_byte, complete_length },
        ),
        Parsed::UnboundBytes(ContentRangeUnbound { first_byte, last_byte }) => Some(
            ContentRange::UnboundBytes { first_byte, last_byte },
        ),
        Parsed::Unsatisfied(ContentRangeUnsatisfied { complete_length }) => Some(
            ContentRange::Unsatisfied { complete_length },
        ),
    }
}

} // verus!
