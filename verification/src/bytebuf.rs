//! Growable byte buffers that are filled at one end and emptied at the other,
//! and big-endian numbers inside byte strings.

use crate::wire::{be16, from_be16};
use byteorder::{BigEndian, ByteOrder};
use bytes::{Buf, BytesMut};
use vstd::prelude::*;

verus! {

/// The byte buffer of the `bytes` crate.
#[verifier::external_type_specification]
#[verifier::external_body]
pub struct ExBytesMut(BytesMut);

/// The bytes that a buffer holds.
pub uninterp spec fn buffered(b: BytesMut) -> Seq<u8>;

/// An empty buffer, by `bytes::BytesMut::new`.
#[verifier::external_body]
pub(crate) fn buf_new() -> (b: BytesMut)
    ensures
        buffered(b) == Seq::<u8>::empty(),
{
    BytesMut::new()
}

/// How many bytes a buffer holds, by `bytes::BytesMut::len`.
#[verifier::external_body]
pub(crate) fn buf_len(b: &BytesMut) -> (n: usize)
    ensures
        n == buffered(*b).len(),
{
    b.len()
}

/// Appends bytes to a buffer, by `bytes::BytesMut::extend_from_slice`, which
/// panics where the buffer would get larger than an allocation can be.
#[verifier::external_body]
pub(crate) fn buf_extend(b: &mut BytesMut, bytes: &[u8])
    requires
        buffered(*old(b)).len() + bytes@.len() <= isize::MAX,
    ensures
        buffered(*final(b)) == buffered(*old(b)) + bytes@,
{
    b.extend_from_slice(bytes)
}

/// A copy of the first `n` bytes of a buffer, by the slice that
/// `bytes::BytesMut` dereferences to.
#[verifier::external_body]
pub(crate) fn buf_front(b: &BytesMut, n: usize) -> (r: Vec<u8>)
    requires
        n <= buffered(*b).len(),
    ensures
        r@ == buffered(*b).subrange(0, n as int),
{
    b[..n].to_vec()
}

/// Drops the first `n` bytes of a buffer, by `bytes::Buf::advance`, which
/// panics where there are not so many.
#[verifier::external_body]
pub(crate) fn buf_advance(b: &mut BytesMut, n: usize)
    requires
        n <= buffered(*old(b)).len(),
    ensures
        buffered(*final(b)) == buffered(*old(b)).skip(n as int),
{
    b.advance(n)
}

/// Empties a buffer and returns what it held, by `bytes::BytesMut::split`.
#[verifier::external_body]
pub(crate) fn buf_split(b: &mut BytesMut) -> (r: Vec<u8>)
    ensures
        r@ == buffered(*old(b)),
        buffered(*final(b)) == Seq::<u8>::empty(),
{
    b.split().to_vec()
}

/// Reads the big-endian number at the front of a byte string, by
/// `byteorder::BigEndian::read_u16`, which panics on fewer than two bytes.
#[verifier::external_body]
pub(crate) fn read_be16(bytes: &[u8]) -> (n: u16)
    requires
        bytes@.len() >= 2,
    ensures
        n == from_be16(bytes@[0], bytes@[1]),
{
    BigEndian::read_u16(bytes)
}

/// Writes a big-endian number into a byte string at `at`, by
/// `byteorder::BigEndian::write_u16`, which panics where the two bytes do not
/// fit.
#[verifier::external_body]
pub(crate) fn write_be16(bytes: &mut Vec<u8>, at: usize, n: u16)
    requires
        at + 2 <= old(bytes)@.len(),
    ensures
        final(bytes)@ == old(bytes)@.update(at as int, be16(n)[0]).update(at + 1, be16(n)[1]),
{
    BigEndian::write_u16(&mut bytes[at..], n)
}

} // verus!
