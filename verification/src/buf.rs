//! The byte buffers of the `bytes` crate as the library uses them. Each
//! buffer is known by the bytes it holds; the wrappers below say what each
//! call does to them.
use vstd::prelude::*;
use bytes::{Buf, BufMut, Bytes, BytesMut};
use bytes::buf::Chain;

verus! {

#[verifier::external_type_specification]
#[verifier::external_body]
pub struct ExBytes(Bytes);

#[verifier::external_type_specification]
#[verifier::external_body]
pub struct ExBytesMut(BytesMut);

#[verifier::external_type_specification]
#[verifier::external_body]
#[verifier::reject_recursive_types(T)]
#[verifier::reject_recursive_types(U)]
pub struct ExChain<T, U>(Chain<T, U>);

/// The bytes a `Bytes` holds, in order.
pub uninterp spec fn bytes_view(b: Bytes) -> Seq<u8>;

/// The bytes a `BytesMut` holds, in order.
pub uninterp spec fn bytes_mut_view(b: BytesMut) -> Seq<u8>;

/// The bytes a chain of two `Bytes` yields, in order.
pub uninterp spec fn chain2_view(c: Chain<Bytes, Bytes>) -> Seq<u8>;

/// The bytes a chain of three `Bytes` yields, in order.
pub uninterp spec fn chain3_view(c: Chain<Chain<Bytes, Bytes>, Bytes>) -> Seq<u8>;

/// `Bytes::new`: an empty buffer.
#[verifier::external_body]
pub(crate) fn bytes_new() -> (r: Bytes)
    ensures
        bytes_view(r) == Seq::<u8>::empty(),
{
    Bytes::new()
}

/// `Bytes::copy_from_slice`: a buffer holding a copy of `data`.
#[verifier::external_body]
pub(crate) fn bytes_copy_from_slice(data: &[u8]) -> (r: Bytes)
    ensures
        bytes_view(r) == data@,
{
    Bytes::copy_from_slice(data)
}

/// `Bytes::from(Vec<u8>)`: a buffer holding the vector's bytes.
#[verifier::external_body]
pub(crate) fn bytes_from_vec(v: Vec<u8>) -> (r: Bytes)
    ensures
        bytes_view(r) == v@,
{
    Bytes::from(v)
}

/// `Deref` of `Bytes`: the bytes held, as a slice.
#[verifier::external_body]
pub(crate) fn bytes_as_slice(b: &Bytes) -> (r: &[u8])
    ensures
        r@ == bytes_view(*b),
{
    b
}

/// `Bytes::len`: the number of bytes held.
#[verifier::external_body]
pub(crate) fn bytes_len(b: &Bytes) -> (r: usize)
    ensures
        r == bytes_view(*b).len(),
{
    b.len()
}

/// `Bytes::split_to`: hands out the first `at` bytes and keeps the rest;
/// panics when `at` exceeds the length.
#[verifier::external_body]
pub(crate) fn bytes_split_to(b: &mut Bytes, at: usize) -> (r: Bytes)
    requires
        at <= bytes_view(*old(b)).len(),
    ensures
        bytes_view(r) == bytes_view(*old(b)).take(at as int),
        bytes_view(*final(b)) == bytes_view(*old(b)).skip(at as int),
{
    b.split_to(at)
}

/// `Buf::copy_to_bytes` of `Bytes`: takes the first `len` bytes off the
/// front; panics when fewer remain.
#[verifier::external_body]
pub(crate) fn bytes_copy_to_bytes(b: &mut Bytes, len: usize) -> (r: Bytes)
    requires
        len <= bytes_view(*old(b)).len(),
    ensures
        bytes_view(r) == bytes_view(*old(b)).take(len as int),
        bytes_view(*final(b)) == bytes_view(*old(b)).skip(len as int),
{
    b.copy_to_bytes(len)
}

/// `Buf::get_u16_le` of `Bytes`: reads the first two bytes as a
/// little-endian number and takes them off the front; panics when fewer than
/// two remain.
#[verifier::external_body]
pub(crate) fn bytes_get_u16_le(b: &mut Bytes) -> (r: u16)
    requires
        bytes_view(*old(b)).len() >= 2,
    ensures
        r == bytes_view(*old(b))[0] + 256 * bytes_view(*old(b))[1],
        bytes_view(*final(b)) == bytes_view(*old(b)).skip(2),
{
    b.get_u16_le()
}

/// `BytesMut::with_capacity`: an empty buffer (the capacity is left unsaid).
#[verifier::external_body]
pub(crate) fn bytes_mut_with_capacity(capacity: usize) -> (r: BytesMut)
    ensures
        bytes_mut_view(r) == Seq::<u8>::empty(),
{
    BytesMut::with_capacity(capacity)
}

/// `BufMut::put_u8` of `BytesMut`: appends one byte, growing the buffer.
#[verifier::external_body]
pub(crate) fn bytes_mut_put_u8(b: &mut BytesMut, n: u8)
    requires
        bytes_mut_view(*old(b)).len() < isize::MAX,
    ensures
        bytes_mut_view(*final(b)) == bytes_mut_view(*old(b)).push(n),
{
    b.put_u8(n)
}

/// `BytesMut::len`: the number of bytes held.
#[verifier::external_body]
pub(crate) fn bytes_mut_len(b: &BytesMut) -> (r: usize)
    ensures
        r == bytes_mut_view(*b).len(),
{
    b.len()
}

/// `BytesMut::freeze`: the same bytes as an immutable buffer.
#[verifier::external_body]
pub(crate) fn bytes_mut_freeze(b: BytesMut) -> (r: Bytes)
    ensures
        bytes_view(r) == bytes_mut_view(b),
{
    b.freeze()
}

/// `Buf::copy_to_bytes` of `BytesMut`: takes the first `len` bytes off the
/// front; panics when fewer remain.
#[verifier::external_body]
pub(crate) fn bytes_mut_copy_to_bytes(b: &mut BytesMut, len: usize) -> (r: Bytes)
    requires
        len <= bytes_mut_view(*old(b)).len(),
    ensures
        bytes_view(r) == bytes_mut_view(*old(b)).take(len as int),
        bytes_mut_view(*final(b)) == bytes_mut_view(*old(b)).skip(len as int),
{
    b.copy_to_bytes(len)
}

/// `Buf::chain` of two `Bytes`: yields the bytes of `a`, then those of `b`.
#[verifier::external_body]
pub(crate) fn chain_bytes(a: Bytes, b: Bytes) -> (r: Chain<Bytes, Bytes>)
    ensures
        chain2_view(r) == bytes_view(a) + bytes_view(b),
{
    a.chain(b)
}

/// `Buf::chain` of a chain and a `Bytes`: yields the bytes of `a`, then those
/// of `b`.
#[verifier::external_body]
pub(crate) fn chain_then(a: Chain<Bytes, Bytes>, b: Bytes) -> (r: Chain<Chain<Bytes, Bytes>, Bytes>)
    ensures
        chain3_view(r) == chain2_view(a) + bytes_view(b),
{
    a.chain(b)
}

/// `Buf::remaining` of a chain of three: the number of bytes left, capped at
/// `usize::MAX`.
#[verifier::external_body]
pub(crate) fn chain3_remaining(c: &Chain<Chain<Bytes, Bytes>, Bytes>) -> (r: usize)
    ensures
        r == (if chain3_view(*c).len() <= usize::MAX { chain3_view(*c).len() as usize } else { usize::MAX }),
{
    c.remaining()
}

/// `Buf::copy_to_bytes` of a chain of three: takes the first `len` bytes off
/// the front; panics when fewer remain.
#[verifier::external_body]
pub(crate) fn chain3_copy_to_bytes(c: &mut Chain<Chain<Bytes, Bytes>, Bytes>, len: usize) -> (r: Bytes)
    requires
        len <= chain3_view(*old(c)).len(),
    ensures
        bytes_view(r) == chain3_view(*old(c)).take(len as int),
        chain3_view(*final(c)) == chain3_view(*old(c)).skip(len as int),
{
    c.copy_to_bytes(len)
}

} // verus!
