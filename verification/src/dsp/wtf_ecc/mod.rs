//! A triple-redundancy byte code. Every data byte `d` is sent three times:
//! as itself, inverted, and xored with the data byte before it. The decoder
//! takes a bitwise majority vote of the three copies.
use vstd::prelude::*;
use bytes::{Bytes, BytesMut};
use bytes::buf::Chain;
use crate::buf::{
    bytes_as_slice, bytes_len, bytes_mut_freeze, bytes_mut_len, bytes_mut_put_u8,
    bytes_mut_view, bytes_mut_with_capacity, bytes_split_to, bytes_view, chain3_copy_to_bytes,
    chain3_remaining, chain3_view, chain_bytes, chain_then,
};

verus! {

/// Every byte of `d` inverted.
pub open spec fn spec_not_bytes(d: Seq<u8>) -> Seq<u8> {
    Seq::new(d.len(), |i: int| !d[i])
}

/// The byte before position `i` of `d`, `p` before the start.
pub open spec fn spec_prev_at(p: u8, d: Seq<u8>, i: int) -> u8 {
    if i == 0 { p } else { d[i - 1] }
}

/// Every byte of `d` xored with the byte before it (`p` before the start).
pub open spec fn spec_xor_prev(p: u8, d: Seq<u8>) -> Seq<u8> {
    Seq::new(d.len(), |i: int| d[i] ^ spec_prev_at(p, d, i))
}

/// The last byte of `d`, or `p` when `d` is empty.
pub open spec fn spec_last_or(p: u8, d: Seq<u8>) -> u8 {
    if d.len() == 0 { p } else { d.last() }
}

/// The encoding of `d` by an encoder whose previous byte is `p`: the data,
/// the data inverted, and the data xored with the previous bytes.
pub open spec fn spec_ecc_encode(p: u8, d: Seq<u8>) -> Seq<u8> {
    d + spec_not_bytes(d) + spec_xor_prev(p, d)
}

/// The bitwise majority vote of the three copies of a byte, given the
/// previously decoded byte `p`: `a` is the plain copy, `!b` the second and
/// `c ^ p` the third.
pub open spec fn spec_vote(p: u8, a: u8, b: u8, c: u8) -> u8 {
    a ^ ((a ^ !b) & (a ^ (c ^ p)))
}

/// The decoder's previous byte after voting on the first `k` byte triples.
pub open spec fn spec_dec_state(p: u8, a: Seq<u8>, b: Seq<u8>, c: Seq<u8>, k: int) -> u8
    decreases k,
{
    if k <= 0 {
        p
    } else {
        spec_vote(spec_dec_state(p, a, b, c, k - 1), a[k - 1], b[k - 1], c[k - 1])
    }
}

/// The bytes voted from the copies `a`, `b`, `c`, one per byte of `a`.
pub open spec fn spec_ecc_decode_parts(p: u8, a: Seq<u8>, b: Seq<u8>, c: Seq<u8>) -> Seq<u8> {
    Seq::new(a.len(), |k: int| spec_dec_state(p, a, b, c, k + 1))
}

/// The bytes decoded from `s` by a decoder whose previous byte is `p`: the
/// first third is the plain copy, the second the inverted copy, the rest the
/// xored copy.
pub open spec fn spec_ecc_decode(p: u8, s: Seq<u8>) -> Seq<u8> {
    let third = s.len() / 3;
    spec_ecc_decode_parts(
        p,
        s.subrange(0, third as int),
        s.subrange(third as int, 2 * third as int),
        s.subrange(2 * third as int, s.len() as int),
    )
}

/// The decoder's previous byte after decoding `s`.
pub open spec fn spec_ecc_decode_state(p: u8, s: Seq<u8>) -> u8 {
    let third = s.len() / 3;
    spec_dec_state(
        p,
        s.subrange(0, third as int),
        s.subrange(third as int, 2 * third as int),
        s.subrange(2 * third as int, s.len() as int),
        third as int,
    )
}

/// `a` with every byte xored with the matching byte of `e`.
pub open spec fn spec_xor_seq(a: Seq<u8>, e: Seq<u8>) -> Seq<u8> {
    Seq::new(a.len(), |i: int| a[i] ^ e[i])
}

/// No bit is corrupted in more than one of the three copies of a byte.
pub open spec fn spec_single_errors(ea: Seq<u8>, eb: Seq<u8>, ec: Seq<u8>) -> bool {
    forall|i: int| 0 <= i < ea.len() ==> {
        &&& #[trigger] ea[i] & eb[i] == 0
        &&& ea[i] & ec[i] == 0
        &&& eb[i] & ec[i] == 0
    }
}

/// The vote recovers a byte when every bit is wrong in at most one copy and
/// the previous byte is right.
proof fn lemma_vote_corrects(q: u8, d: u8, ea: u8, eb: u8, ec: u8)
    requires
        ea & eb == 0,
        ea & ec == 0,
        eb & ec == 0,
    ensures
        spec_vote(q, d ^ ea, (!d) ^ eb, (d ^ q) ^ ec) == d,
{
    assert(ea & eb == 0 && ea & ec == 0 && eb & ec == 0 ==> (d ^ ea) ^ (((d ^ ea) ^ !((!d) ^ eb)) & ((d
        ^ ea) ^ (((d ^ q) ^ ec) ^ q))) == d) by (bit_vector);
}

/// Along the decoding of a corrupted encoding the previous byte is always
/// the right one.
proof fn lemma_dec_state_corrects(p: u8, d: Seq<u8>, ea: Seq<u8>, eb: Seq<u8>, ec: Seq<u8>, k: int)
    requires
        ea.len() == d.len(),
        eb.len() == d.len(),
        ec.len() == d.len(),
        spec_single_errors(ea, eb, ec),
        0 <= k <= d.len(),
    ensures
        spec_dec_state(
            p,
            spec_xor_seq(d, ea),
            spec_xor_seq(spec_not_bytes(d), eb),
            spec_xor_seq(spec_xor_prev(p, d), ec),
            k,
        ) == spec_prev_at(p, d, k),
    decreases k,
{
    if k > 0 {
        lemma_dec_state_corrects(p, d, ea, eb, ec, k - 1);
        let q = spec_prev_at(p, d, k - 1);
        assert(ea[k - 1] & eb[k - 1] == 0);
        lemma_vote_corrects(q, d[k - 1], ea[k - 1], eb[k - 1], ec[k - 1]);
    }
}

/// Error correction: decoding an encoding in which every bit of every byte
/// is corrupted in at most one of its three copies gives back the data, and
/// leaves the decoder where the encoder stopped.
pub proof fn lemma_ecc_corrects_single_errors(p: u8, d: Seq<u8>, ea: Seq<u8>, eb: Seq<u8>, ec: Seq<u8>)
    requires
        ea.len() == d.len(),
        eb.len() == d.len(),
        ec.len() == d.len(),
        spec_single_errors(ea, eb, ec),
    ensures
        spec_ecc_decode(
            p,
            spec_xor_seq(d, ea) + spec_xor_seq(spec_not_bytes(d), eb) + spec_xor_seq(spec_xor_prev(p, d), ec),
        ) == d,
        spec_ecc_decode_state(
            p,
            spec_xor_seq(d, ea) + spec_xor_seq(spec_not_bytes(d), eb) + spec_xor_seq(spec_xor_prev(p, d), ec),
        ) == spec_last_or(p, d),
{
    let a = spec_xor_seq(d, ea);
    let b = spec_xor_seq(spec_not_bytes(d), eb);
    let c = spec_xor_seq(spec_xor_prev(p, d), ec);
    let s = a + b + c;
    let n = d.len() as int;
    assert(s.len() / 3 == n);
    assert(s.subrange(0, n) =~= a);
    assert(s.subrange(n, 2 * n) =~= b);
    assert(s.subrange(2 * n, s.len() as int) =~= c);
    assert forall|k: int| 0 <= k < n implies #[trigger] spec_ecc_decode(p, s)[k] == d[k] by {
        lemma_dec_state_corrects(p, d, ea, eb, ec, k + 1);
    }
    assert(spec_ecc_decode(p, s) =~= d);
    lemma_dec_state_corrects(p, d, ea, eb, ec, n);
}

/// Round trip: decoding an encoding with the encoder's starting byte gives
/// back the data, and leaves the decoder where the encoder stopped.
pub proof fn lemma_ecc_round_trip(p: u8, d: Seq<u8>)
    ensures
        spec_ecc_decode(p, spec_ecc_encode(p, d)) == d,
        spec_ecc_decode_state(p, spec_ecc_encode(p, d)) == spec_last_or(p, d),
{
    let z = Seq::new(d.len(), |i: int| 0u8);
    assert forall|x: u8| #[trigger] (x ^ 0u8) == x by {
        assert(x ^ 0u8 == x) by (bit_vector);
    }
    assert(0u8 & 0u8 == 0) by (bit_vector);
    assert(spec_xor_seq(d, z) =~= d);
    assert(spec_xor_seq(spec_not_bytes(d), z) =~= spec_not_bytes(d));
    assert(spec_xor_seq(spec_xor_prev(p, d), z) =~= spec_xor_prev(p, d));
    lemma_ecc_corrects_single_errors(p, d, z, z, z);
}

/// The coder's whole state: the last data byte it handled.
#[derive(Debug, Default)]
pub struct WtfECC {
    prev: u8,
}

impl View for WtfECC {
    type V = u8;

    closed spec fn view(&self) -> u8 {
        self.prev
    }
}

impl WtfECC {
    /// Every data byte is sent three times.
    pub const EXPANSION_RATIO: usize = 3;

    /// A coder with no previous byte (0).
    pub fn new() -> (r: Self)
        ensures
            r@ == 0,
    {
        WtfECC { prev: 0 }
    }

    /// Forgets the previous byte.
    pub fn reset(&mut self)
        ensures
            final(self)@ == 0,
    {
        *self = WtfECC { prev: 0 };
    }

    /// Appends the inverted copy of `data` to `b` and the xored copy to `c`.
    pub fn encode_into(&mut self, data: &Bytes, b: &mut BytesMut, c: &mut BytesMut)
        requires
            bytes_mut_view(*old(b)).len() + bytes_view(*data).len() < isize::MAX,
            bytes_mut_view(*old(c)).len() + bytes_view(*data).len() < isize::MAX,
        ensures
            bytes_mut_view(*final(b)) == bytes_mut_view(*old(b)) + spec_not_bytes(bytes_view(*data)),
            bytes_mut_view(*final(c)) == bytes_mut_view(*old(c)) + spec_xor_prev(old(self)@, bytes_view(*data)),
            final(self)@ == spec_last_or(old(self)@, bytes_view(*data)),
    {
        let ghost p = self@;
        let ghost b0 = bytes_mut_view(*b);
        let ghost c0 = bytes_mut_view(*c);
        let d = bytes_as_slice(data);
        let mut i: usize = 0;
        while i < d.len()
            invariant
                d@ == bytes_view(*data),
                i <= d@.len(),
                b0.len() + d@.len() < isize::MAX,
                c0.len() + d@.len() < isize::MAX,
                bytes_mut_view(*b) == b0 + spec_not_bytes(d@.take(i as int)),
                bytes_mut_view(*c) == c0 + spec_xor_prev(p, d@.take(i as int)),
                self.prev == spec_last_or(p, d@.take(i as int)),
            decreases d@.len() - i,
        {
            let byte = d[i];
            bytes_mut_put_u8(b, !byte);
            bytes_mut_put_u8(c, byte ^ self.prev);
            self.prev = byte;
            i += 1;
            assert(spec_not_bytes(d@.take(i as int)) =~= spec_not_bytes(d@.take(i - 1)).push(!byte));
            assert(spec_xor_prev(p, d@.take(i as int)) =~= spec_xor_prev(p, d@.take(i - 1)).push(
                byte ^ spec_last_or(p, d@.take(i - 1))));
        }
        assert(d@.take(d@.len() as int) =~= d@);
    }

    /// Encodes `data`: the data itself, then the inverted copy, then the
    /// xored copy.
    pub fn encode(&mut self, data: Bytes) -> (r: Chain<Chain<Bytes, Bytes>, Bytes>)
        requires
            bytes_view(data).len() < isize::MAX,
        ensures
            chain3_view(r) == spec_ecc_encode(old(self)@, bytes_view(data)),
            final(self)@ == spec_last_or(old(self)@, bytes_view(data)),
    {
        let n = bytes_len(&data);
        let mut b = bytes_mut_with_capacity(n);
        let mut c = bytes_mut_with_capacity(n);
        self.encode_into(&data, &mut b, &mut c);
        let r = chain_then(chain_bytes(data, bytes_mut_freeze(b)), bytes_mut_freeze(c));
        r
    }

    /// Encodes `data` and collects the whole encoding into one buffer.
    pub fn encode_to_bytes(&mut self, data: Bytes) -> (r: Bytes)
        requires
            bytes_view(data).len() < isize::MAX,
            3 * bytes_view(data).len() <= usize::MAX,
        ensures
            bytes_view(r) == spec_ecc_encode(old(self)@, bytes_view(data)),
            final(self)@ == spec_last_or(old(self)@, bytes_view(data)),
    {
        let mut output = self.encode(data);
        let len = chain3_remaining(&output);
        let ghost whole = chain3_view(output);
        let r = chain3_copy_to_bytes(&mut output, len);
        assert(whole.take(len as int) =~= whole);
        r
    }

    /// Decodes `src`, appending one voted byte per byte triple to `dst`.
    /// `src` is split into thirds; afterwards it holds what followed its
    /// first two thirds.
    pub fn decode_into(&mut self, src: &mut Bytes, dst: &mut BytesMut)
        requires
            bytes_mut_view(*old(dst)).len() + bytes_view(*old(src)).len() < isize::MAX,
        ensures
            bytes_mut_view(*final(dst)) == bytes_mut_view(*old(dst)) + spec_ecc_decode(old(self)@, bytes_view(*old(src))),
            final(self)@ == spec_ecc_decode_state(old(self)@, bytes_view(*old(src))),
            bytes_view(*final(src)) == bytes_view(*old(src)).skip(2 * (bytes_view(*old(src)).len() as int / 3)),
    {
        let ghost p = self@;
        let ghost s = bytes_view(*src);
        let ghost d0 = bytes_mut_view(*dst);
        let third = bytes_len(src) / 3;
        let a = bytes_split_to(src, third);
        let b = bytes_split_to(src, third);
        let sa = bytes_as_slice(&a);
        let sb = bytes_as_slice(&b);
        let sc = bytes_as_slice(src);
        let ghost ga = s.subrange(0, third as int);
        let ghost gb = s.subrange(third as int, 2 * third as int);
        let ghost gc = s.subrange(2 * third as int, s.len() as int);
        assert(sa@ =~= ga);
        assert(sb@ =~= gb);
        assert(sc@ =~= gc);
        let mut k: usize = 0;
        while k < third
            invariant
                k <= third,
                third == s.len() / 3,
                sa@ == ga,
                sb@ == gb,
                sc@ == gc,
                ga.len() == third,
                gb.len() == third,
                gc.len() >= third,
                d0.len() + s.len() < isize::MAX,
                self.prev == spec_dec_state(p, ga, gb, gc, k as int),
                bytes_mut_view(*dst) == d0 + Seq::new(k as nat, |j: int| spec_dec_state(p, ga, gb, gc, j + 1)),
            decreases third - k,
        {
            let byte_a = sa[k];
            let byte_b = sb[k];
            let byte_c = sc[k];
            let according_to_b = !byte_b;
            let according_to_c = byte_c ^ self.prev;
            let bf_ab = byte_a ^ according_to_b;
            let bf_ac = byte_a ^ according_to_c;
            let bf_consensus = bf_ab & bf_ac;
            self.prev = byte_a ^ bf_consensus;
            bytes_mut_put_u8(dst, self.prev);
            k += 1;
            assert(bytes_mut_view(*dst) =~= d0 + Seq::new(k as nat, |j: int| spec_dec_state(p, ga, gb, gc, j + 1)));
        }
        assert(spec_ecc_decode(p, s) =~= Seq::new(third as nat, |j: int| spec_dec_state(p, ga, gb, gc, j + 1)));
    }

    /// Decodes `src` into a new buffer of one voted byte per byte triple.
    pub fn decode(&mut self, src: &mut Bytes) -> (r: Bytes)
        requires
            bytes_view(*old(src)).len() < isize::MAX,
        ensures
            bytes_view(r) == spec_ecc_decode(old(self)@, bytes_view(*old(src))),
            final(self)@ == spec_ecc_decode_state(old(self)@, bytes_view(*old(src))),
            bytes_view(*final(src)) == bytes_view(*old(src)).skip(2 * (bytes_view(*old(src)).len() as int / 3)),
    {
        let mut dst = bytes_mut_with_capacity(bytes_len(src) / 3);
        self.decode_into(src, &mut dst);
        bytes_mut_freeze(dst)
    }
}

} // verus!
