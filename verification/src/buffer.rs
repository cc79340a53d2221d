//! Shared byte buffers: what the library knows of `bytes::Bytes`.

use bytes::Bytes;
use vstd::prelude::*;

verus! {

#[verifier::external_type_specification]
#[verifier::external_body]
pub struct ExBytes(Bytes);

/// The bytes that a buffer holds.
pub uninterp spec fn contents(buffer: Bytes) -> Seq<u8>;

/// `Bytes::from(Vec<u8>)`: the buffer holds the vector's bytes.
#[verifier::external_body]
pub(crate) fn from_vec(data: Vec<u8>) -> (buffer: Bytes)
    ensures
        contents(buffer) == data@,
{
    Bytes::from(data)
}

/// `Bytes::len`: how many bytes the buffer holds.
#[verifier::external_body]
pub(crate) fn len(buffer: &Bytes) -> (length: usize)
    ensures
        length == contents(*buffer).len(),
{
    buffer.len()
}

/// `Bytes::clone`: another handle to the same bytes.
#[verifier::external_body]
pub(crate) fn share(buffer: &Bytes) -> (other: Bytes)
    ensures
        contents(other) == contents(*buffer),
{
    buffer.clone()
}

/// `Bytes::slice`: a handle to the bytes of a range. It panics on a range that
/// does not lie inside the buffer.
#[verifier::external_body]
pub(crate) fn slice(buffer: &Bytes, start: usize, end: usize) -> (part: Bytes)
    requires
        start <= end <= contents(*buffer).len(),
    ensures
        contents(part) == contents(*buffer).subrange(start as int, end as int),
{
    buffer.slice(start..end)
}

/// `Bytes::as_ref`: the bytes that the buffer holds.
#[verifier::external_body]
pub(crate) fn as_slice(buffer: &Bytes) -> (data: &[u8])
    ensures
        data@ == contents(*buffer),
{
    buffer.as_ref()
}

} // verus!
