//! Trusted interface to the byte buffers of the `bytes` crate: the
//! growable network buffer the decoder consumes and the frozen buffer
//! the encoder hands back. Each item relies on one documented method;
//! everything else about the buffers is proved from these contracts.
use vstd::prelude::*;
use bytes::Bytes;
use bytes::BytesMut;

verus! {

/// Declares bytes::BytesMut, the growable buffer network reads fill
/// and the decoder consumes from the front.
#[verifier::external_type_specification]
#[verifier::external_body]
pub struct ExBytesMut(BytesMut);

/// Declares bytes::Bytes, the frozen buffer an encoded reply is
/// handed out as.
#[verifier::external_type_specification]
#[verifier::external_body]
pub struct ExBytes(Bytes);

/// The bytes a mutable buffer currently holds, front to back.
pub uninterp spec fn bm_bytes(b: BytesMut) -> Seq<u8>;

/// The bytes a frozen buffer holds.
pub uninterp spec fn bytes_data(b: Bytes) -> Seq<u8>;

/// Relies on BytesMut::len: how many bytes the buffer holds.
#[verifier::external_body]
pub(crate) fn bm_len(b: &BytesMut) -> (r: usize)
    ensures
        r == bm_bytes(*b).len(),
{
    b.len()
}

/// Relies on the Deref impl of BytesMut: the byte at an index.
#[verifier::external_body]
pub(crate) fn bm_byte(b: &BytesMut, i: usize) -> (r: u8)
    requires
        i < bm_bytes(*b).len(),
    ensures
        r == bm_bytes(*b)[i as int],
{
    b[i]
}

/// Relies on Buf::advance for BytesMut: discards the first `n` bytes;
/// it panics past the end, which the precondition rules out.
#[verifier::external_body]
pub(crate) fn bm_advance(b: &mut BytesMut, n: usize)
    requires
        n <= bm_bytes(*old(b)).len(),
    ensures
        bm_bytes(*final(b)) == bm_bytes(*old(b)).skip(n as int),
{
    bytes::Buf::advance(b, n)
}

/// Relies on the Deref impl of BytesMut: copies the bytes between two
/// positions out of the buffer, leaving it unchanged.
#[verifier::external_body]
pub(crate) fn bm_copy_range(b: &BytesMut, start: usize, end: usize) -> (r: Vec<u8>)
    requires
        start <= end <= bm_bytes(*b).len(),
    ensures
        r@ == bm_bytes(*b).subrange(start as int, end as int),
{
    b[start..end].to_vec()
}

/// Relies on From&lt;Vec&lt;u8&gt;&gt; for Bytes: freezes a byte vector
/// without changing its contents.
#[verifier::external_body]
pub(crate) fn bytes_from_vec(v: Vec<u8>) -> (r: Bytes)
    ensures
        bytes_data(r) == v@,
{
    Bytes::from(v)
}

} // verus!
