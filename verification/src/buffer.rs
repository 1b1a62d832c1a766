//! Cheaply shared pieces of memory, by the `bytes` crate.

use bytes::Bytes;
use vstd::prelude::*;

verus! {

/// Declares `bytes::Bytes`, a piece of memory that can be sliced without copying it.
#[verifier::external_type_specification]
#[verifier::external_body]
pub struct ExBytes(Bytes);

/// The bytes that a piece of memory holds.
pub uninterp spec fn content(bytes: Bytes) -> Seq<u8>;

/// Calls `bytes::Bytes::len`, of which we claim that it counts the bytes held.
#[verifier::external_body]
pub(crate) fn bytes_len(bytes: &Bytes) -> (n: usize)
    ensures
        n == content(*bytes).len(),
{
    bytes.len()
}

/// Calls `bytes::Bytes::slice`, of which we claim that it gives the bytes from `begin` up to,
/// but without, `end`.
#[verifier::external_body]
pub(crate) fn bytes_slice(bytes: &Bytes, begin: usize, end: usize) -> (part: Bytes)
    requires
        begin <= end <= content(*bytes).len(),
    ensures
        content(part) == content(*bytes).subrange(begin as int, end as int),
{
    bytes.slice(begin..end)
}

/// Calls `<bytes::Bytes as AsRef<[u8]>>::as_ref`, of which we claim that it gives the bytes
/// held.
#[verifier::external_body]
pub(crate) fn bytes_as_ref(bytes: &Bytes) -> (slice: &[u8])
    ensures
        slice@ == content(*bytes),
{
    bytes.as_ref()
}

} // verus!
