//! The trusted boundary around `bytes::BytesMut`, the growable buffer that
//! holds the bytes received from or destined for a connection. The contents
//! are modelled as a `Seq<u8>`; each wrapper states over that model what the
//! method of the `bytes` crate does, as its source shows, and nothing more.

use bytes::BufMut;
use bytes::BytesMut;
use vstd::prelude::*;

verus! {

#[verifier::external_type_specification]
#[verifier::external_body]
pub struct ExBytesMut(BytesMut);

/// The bytes a `BytesMut` holds, in order.
pub uninterp spec fn bytes_view(b: BytesMut) -> Seq<u8>;

/// Relies on `BytesMut::len`: the number of bytes the buffer holds.
#[verifier::external_body]
pub fn buf_len(b: &BytesMut) -> (r: usize)
    ensures
        r == bytes_view(*b).len(),
{
    b.len()
}

/// Relies on the `Deref`-to-slice impl of `BytesMut`: the byte at index `i`.
/// Indexing past the end panics, which the precondition rules out.
#[verifier::external_body]
pub fn buf_byte(b: &BytesMut, i: usize) -> (r: u8)
    requires
        i < bytes_view(*b).len(),
    ensures
        r == bytes_view(*b)[i as int],
{
    b[i]
}

/// Relies on `BytesMut::split_to`: the first `at` bytes leave the buffer and
/// come back as a buffer of their own. Splitting past the end panics, which
/// the precondition rules out.
#[verifier::external_body]
pub fn buf_split_to(b: &mut BytesMut, at: usize) -> (r: BytesMut)
    requires
        at <= bytes_view(*old(b)).len(),
    ensures
        bytes_view(r) == bytes_view(*old(b)).take(at as int),
        bytes_view(*final(b)) == bytes_view(*old(b)).skip(at as int),
{
    b.split_to(at)
}

/// Relies on `BytesMut::reserve`: capacity grows, the contents stay.
#[verifier::external_body]
pub fn buf_reserve(b: &mut BytesMut, additional: usize)
    ensures
        bytes_view(*final(b)) == bytes_view(*old(b)),
{
    b.reserve(additional)
}

/// Relies on `BytesMut::extend_from_slice`: the slice's bytes are appended.
#[verifier::external_body]
pub fn buf_put_slice(b: &mut BytesMut, s: &[u8])
    ensures
        bytes_view(*final(b)) == bytes_view(*old(b)) + s@,
{
    b.extend_from_slice(s)
}

/// Relies on `BufMut::put_u8` as `BytesMut` implements it: one byte is
/// appended.
#[verifier::external_body]
pub fn buf_put_u8(b: &mut BytesMut, byte: u8)
    ensures
        bytes_view(*final(b)) == bytes_view(*old(b)).push(byte),
{
    b.put_u8(byte)
}

} // verus!
