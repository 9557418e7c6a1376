//! The growable byte buffer of the `bytes` crate, as the block encoder uses it.

use bytes::{BufMut, BytesMut};
use vstd::prelude::*;

use crate::entry::be64;

verus! {

#[verifier::external_type_specification]
#[verifier::external_body]
pub struct ExBytesMut(BytesMut);

/// The bytes that a buffer holds, from first to last.
pub uninterp spec fn buffer_bytes(b: BytesMut) -> Seq<u8>;

/// Relies on `BytesMut::with_capacity`: the new buffer holds no bytes.
#[verifier::external_body]
pub(crate) fn with_capacity(capacity: usize) -> (r: BytesMut)
    ensures
        buffer_bytes(r) == Seq::<u8>::empty(),
{
    BytesMut::with_capacity(capacity)
}

/// Relies on `BufMut::put_u64` of `BytesMut`: it appends `n` in big-endian
/// byte order, growing the buffer as needed.
#[verifier::external_body]
pub(crate) fn put_u64(b: &mut BytesMut, n: u64)
    requires
        buffer_bytes(*old(b)).len() + 8 <= isize::MAX,
    ensures
        buffer_bytes(*final(b)) == buffer_bytes(*old(b)) + be64(n),
{
    b.put_u64(n)
}

/// Relies on `BufMut::put_slice` of `BytesMut`: it appends the bytes of `s`,
/// growing the buffer as needed.
#[verifier::external_body]
pub(crate) fn put_slice(b: &mut BytesMut, s: &[u8])
    requires
        buffer_bytes(*old(b)).len() + s@.len() <= isize::MAX,
    ensures
        buffer_bytes(*final(b)) == buffer_bytes(*old(b)) + s@,
{
    b.put_slice(s)
}

/// Relies on `BytesMut::unsplit`: it appends the bytes of `other`.
#[verifier::external_body]
pub(crate) fn unsplit(b: &mut BytesMut, other: BytesMut)
    requires
        buffer_bytes(*old(b)).len() + buffer_bytes(other).len() <= isize::MAX,
    ensures
        buffer_bytes(*final(b)) == buffer_bytes(*old(b)) + buffer_bytes(other),
{
    b.unsplit(other)
}

/// Relies on `From<BytesMut> for Vec<u8>`: the vector holds the buffer's bytes.
#[verifier::external_body]
pub(crate) fn into_vec(b: BytesMut) -> (r: Vec<u8>)
    ensures
        r@ == buffer_bytes(b),
{
    Vec::from(b)
}

} // verus!
