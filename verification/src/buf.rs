//! Trusted view of the byte buffers that carry wire data in and out of the
//! codecs. The buffer type comes from the `bytes` crate; its contents are
//! named by `buf_view`, and the few methods the codecs call are wrapped with
//! contracts over that name.

use bytes::BytesMut;
use vstd::prelude::*;

verus! {

#[verifier::external_type_specification]
#[verifier::external_body]
pub struct ExBytesMut(BytesMut);

/// The byte contents of a `bytes::BytesMut` buffer, as a sequence.
pub uninterp spec fn buf_view(b: BytesMut) -> Seq<u8>;

/// Relies on `AsRef<[u8]> for BytesMut`: reads the buffer's bytes out into a
/// plain vector, leaving the buffer as it is.
#[verifier::external_body]
pub fn buf_to_vec(b: &BytesMut) -> (v: Vec<u8>)
    ensures
        v@ == buf_view(*b),
{
    b.as_ref().to_vec()
}

/// Relies on `BytesMut::advance`: drops the first `cnt` bytes and keeps the
/// rest. It panics when `cnt` exceeds the length, so that case is excluded.
#[verifier::external_body]
pub fn buf_advance(b: &mut BytesMut, cnt: usize)
    requires
        cnt <= buf_view(*old(b)).len(),
    ensures
        buf_view(*final(b)) == buf_view(*old(b)).skip(cnt as int),
{
    b.advance(cnt)
}

/// Relies on `BytesMut::extend_from_slice`: appends the given bytes at the
/// end of the buffer.
#[verifier::external_body]
pub fn buf_extend(b: &mut BytesMut, s: &Vec<u8>)
    ensures
        buf_view(*final(b)) == buf_view(*old(b)) + s@,
{
    b.extend_from_slice(s.as_slice())
}

} // verus!
