//! The receive buffer of a framed transport.
//!
//! A framed transport keeps incoming bytes in a `bytes::BytesMut`, which can
//! hand over its front part without copying. Verus cannot look inside one,
//! so this module names its contents and states, for each operation the
//! decoder uses, what the operation does to them. These statements are
//! taken on trust.

use vstd::prelude::*;
use bytes::BytesMut;
use std::ops::Deref;

verus! {

/// `bytes::BytesMut`, a growable byte buffer, taken as opaque.
#[verifier::external_type_specification]
#[verifier::external_body]
pub struct ExBytesMut(BytesMut);

/// The bytes that a `bytes::BytesMut` holds, in order: what its `Deref` to
/// a byte slice shows.
pub uninterp spec fn buffered(buf: BytesMut) -> Seq<u8>;

/// `BytesMut::len`: the number of bytes held.
#[verifier::external_body]
pub(crate) fn buffer_len(buf: &BytesMut) -> (n: usize)
    ensures
        n == buffered(*buf).len(),
{
    buf.len()
}

/// `BytesMut`'s `Deref::deref`: the bytes held, as a slice.
#[verifier::external_body]
pub(crate) fn buffer_bytes(buf: &BytesMut) -> (bytes: &[u8])
    ensures
        bytes@ == buffered(*buf),
{
    buf.deref()
}

/// `BytesMut::split_to`: takes the first `at` bytes out of the buffer and
/// returns them; the buffer keeps the rest. The outside function panics
/// where `at` exceeds the length, which the precondition rules out.
#[verifier::external_body]
pub(crate) fn buffer_split_to(buf: &mut BytesMut, at: usize) -> (front: BytesMut)
    requires
        at <= buffered(*old(buf)).len(),
    ensures
        buffered(front) == buffered(*old(buf)).take(at as int),
        buffered(*final(buf)) == buffered(*old(buf)).skip(at as int),
{
    buf.split_to(at)
}

} // verus!
