//! Frames of the byte pipeline: an identifier, the payload length and the
//! payload, each coded with the triple-redundancy code.
use vstd::prelude::*;
use bytes::Bytes;
use crate::buf::{bytes_copy_from_slice, bytes_copy_to_bytes, bytes_from_vec, bytes_len, bytes_new, bytes_view, chain3_copy_to_bytes, chain3_remaining, chain3_view, chain_bytes, chain_then};
use crate::dsp::wtf_ecc::{WtfECC, spec_ecc_encode};

verus! {

/// The frame identifier bytes.
pub open spec fn spec_frame_ident() -> Seq<u8> {
    seq![0xF0u8, 0xF0, 0xF0, 0xF1]
}

/// The two bytes of a length, low byte first.
pub open spec fn spec_len_bytes(len: nat) -> Seq<u8> {
    seq![(len % 256) as u8, ((len / 256) % 256) as u8]
}

/// The bytes sent for a frame with payload `bin`: the encoded identifier,
/// the encoded length (low byte first) and the encoded payload, each from a
/// fresh coder.
pub open spec fn spec_frame_encode(bin: Seq<u8>) -> Seq<u8> {
    spec_ecc_encode(0, spec_frame_ident()) + spec_ecc_encode(0, spec_len_bytes(bin.len())) + spec_ecc_encode(0, bin)
}

/// A payload and its length.
#[derive(Debug)]
pub struct Frame {
    len: u16,
    bin: Bytes,
}

impl Frame {
    /// The identifier, big endian: 0b11110000111100001111000011110001.
    pub const IDENT: [u8; 4] = [0xF0, 0xF0, 0xF0, 0xF1];

    /// The number of bytes the encoded identifier takes.
    pub const ENCODED_IDENT_LENGTH: usize = 4 * WtfECC::EXPANSION_RATIO;

    /// The length field always holds the payload's length.
    #[verifier::type_invariant]
    spec fn inv(&self) -> bool {
        self.len as int == bytes_view(self.bin).len()
    }

    /// The payload.
    pub closed spec fn spec_bin(&self) -> Seq<u8> {
        bytes_view(self.bin)
    }

    /// Creates a frame around `bin`, handing `bin` back as the error when it
    /// is longer than a length field can say (65535 bytes).
    pub fn new_from_bin(bin: Bytes) -> (r: Result<Self, Bytes>)
        ensures
            bytes_view(bin).len() <= u16::MAX ==> r is Ok && r->Ok_0.spec_bin() == bytes_view(bin),
            bytes_view(bin).len() > u16::MAX ==> r is Err && bytes_view(r->Err_0) == bytes_view(bin),
    {
        let mut ans = Self::empty();
        match ans.change_bin(bin) {
            Ok(()) => Ok(ans),
            Err(e) => Err(e),
        }
    }

    /// A frame with no payload.
    pub fn empty() -> (r: Self)
        ensures
            r.spec_bin() == Seq::<u8>::empty(),
    {
        Self { len: 0, bin: bytes_new() }
    }

    /// Changes the payload, handing `new_bin` back as the error (and keeping
    /// the old payload) when it is longer than 65535 bytes.
    pub fn change_bin(&mut self, new_bin: Bytes) -> (r: Result<(), Bytes>)
        ensures
            bytes_view(new_bin).len() <= u16::MAX ==> r is Ok && final(self).spec_bin() == bytes_view(new_bin),
            bytes_view(new_bin).len() > u16::MAX ==> r is Err && bytes_view(r->Err_0) == bytes_view(new_bin)
                && final(self).spec_bin() == old(self).spec_bin(),
    {
        let mut new_bin = new_bin;
        let len = bytes_len(&new_bin);
        let ghost whole = bytes_view(new_bin);
        if len > (u16::MAX as usize) {
            let r = bytes_copy_to_bytes(&mut new_bin, len);
            assert(whole.take(len as int) =~= whole);
            Err(r)
        } else {
            let b = bytes_copy_to_bytes(&mut new_bin, len);
            assert(whole.take(len as int) =~= whole);
            *self = Frame { len: len as u16, bin: b };
            Ok(())
        }
    }

    /// The payload length.
    pub fn len(&self) -> (r: u16)
        ensures
            r == self.spec_bin().len(),
    {
        proof {
            use_type_invariant(self);
        }
        self.len
    }

    /// The payload length as a `usize`.
    pub fn len_usize(&self) -> (r: usize)
        ensures
            r == self.spec_bin().len(),
    {
        proof {
            use_type_invariant(self);
        }
        self.len as usize
    }

    /// The bytes sent for the frame: encoded identifier, encoded length (low
    /// byte first) and encoded payload.
    pub fn encode(self) -> (r: Bytes)
        ensures
            bytes_view(r) == spec_frame_encode(self.spec_bin()),
    {
        proof {
            use_type_invariant(&self);
        }
        let mut encoder = WtfECC::new();
        let encoded_ident = encoder.encode_to_bytes(bytes_copy_from_slice(&Self::IDENT));
        encoder.reset();
        let len_bytes = vec![(self.len % 256) as u8, (self.len / 256) as u8];
        assert(len_bytes@ =~= spec_len_bytes(self.spec_bin().len()));
        let encoded_len = encoder.encode_to_bytes(bytes_from_vec(len_bytes));
        encoder.reset();
        let encoded_bin = encoder.encode_to_bytes(self.bin);
        let mut data = chain_then(chain_bytes(encoded_ident, encoded_len), encoded_bin);
        let n = chain3_remaining(&data);
        let ghost whole = chain3_view(data);
        assert(Self::IDENT@ =~= spec_frame_ident());
        assert(whole =~= spec_frame_encode(self.spec_bin()));
        let r = chain3_copy_to_bytes(&mut data, n);
        assert(whole.take(n as int) =~= whole);
        r
    }
}

} // verus!
