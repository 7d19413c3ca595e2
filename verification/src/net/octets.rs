//! Shared runs of bytes.
//!
//! A packet is relayed without being copied, so it travels as a
//! [`bytes::Bytes`]: a counted reference to memory and a range within it.

use vstd::prelude::*;

verus! {

/// A counted reference to a run of bytes.
#[verifier::external_type_specification]
#[verifier::external_body]
pub struct ExBytes(bytes::Bytes);

/// The bytes a [`bytes::Bytes`] holds.
pub uninterp spec fn held(b: bytes::Bytes) -> Seq<u8>;

/// [`bytes::Bytes::as_ref`]: the bytes as a slice, in order.
#[verifier::external_body]
pub(crate) fn octets(b: &bytes::Bytes) -> (s: &[u8])
    ensures
        s@ == held(*b),
{
    b.as_ref()
}

/// [`bytes::Bytes::slice`], from `at` to the end: what is left once `at` bytes
/// are taken off the front. It panics past the end, which is left out.
#[verifier::external_body]
pub(crate) fn past(b: &bytes::Bytes, at: usize) -> (rest: bytes::Bytes)
    requires
        at <= held(*b).len(),
    ensures
        held(rest) == held(*b).skip(at as int),
{
    b.slice(at..)
}

/// [`bytes::Bytes::copy_from_slice`]: the same bytes, in memory of their own.
#[verifier::external_body]
pub(crate) fn copied(data: &[u8]) -> (b: bytes::Bytes)
    ensures
        held(b) == data@,
{
    bytes::Bytes::copy_from_slice(data)
}

} // verus!
