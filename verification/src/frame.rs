//! The Frame object. Frame is the lowest OSI level building block, handled
//! and managed by the system itself. The header follows the CCSDS SDLP
//! transfer frame, the standard frame header for space communication.
use vstd::prelude::*;
use vstd::slice::{slice_subrange, slice_to_vec};
use crate::{AMBLE, IDENT};
use crate::buf::{bytes_as_slice, bytes_copy_from_slice, bytes_copy_to_bytes, bytes_view, chain3_copy_to_bytes, chain3_remaining, chain3_view};
use crate::dsp::wtf_ecc::{WtfECC, lemma_ecc_round_trip, spec_ecc_decode, spec_ecc_encode};
use crate::tools::{bin_to_u8, spec_bin_to_u8, spec_is_bin};

verus! {

/// The identifier bytes.
pub open spec fn spec_ident_bytes() -> Seq<u8> {
    spec_bin_to_u8(IDENT@)
}

/// The preamble bytes.
pub open spec fn spec_amble_bytes() -> Seq<u8> {
    spec_bin_to_u8(AMBLE@)
}

/// Both constants are 32 binary digits.
proof fn lemma_constants()
    ensures
        spec_is_bin(IDENT@),
        IDENT@.len() == 32,
        spec_is_bin(AMBLE@),
        AMBLE@.len() == 32,
        spec_ident_bytes().len() == 4,
        spec_amble_bytes().len() == 4,
{
    reveal_strlit("11110000111100001111000011110001");
    reveal_strlit("10101010101010101010101010101010");
}

/// The identifier as bytes.
fn ident_vec() -> (r: Vec<u8>)
    ensures
        r@ == spec_ident_bytes(),
        r@.len() == 4,
{
    proof {
        lemma_constants();
    }
    bin_to_u8(IDENT)
}

/// The preamble as bytes.
fn amble_vec() -> (r: Vec<u8>)
    ensures
        r@ == spec_amble_bytes(),
        r@.len() == 4,
{
    proof {
        lemma_constants();
    }
    bin_to_u8(AMBLE)
}


/// What reading a frame out of received bytes yields: whether the
/// identifier was found, whether the whole frame was there, the length field
/// and the payload.
pub open spec fn spec_parse(data: Seq<u8>) -> (bool, bool, u16, Seq<u8>) {
    let ident = spec_ecc_decode(0, data.subrange(0, 12));
    if ident.len() >= 4 && ident == spec_ident_bytes() {
        if data.len() / 3 >= 4 + 3 {
            let len_bin = spec_ecc_decode(0, data.subrange(12, 18));
            let len = (len_bin[0] * 256 + len_bin[1]) as u16;
            if data.len() / 3 == 4 + 2 + len {
                (true, true, len, spec_ecc_decode(0, data.subrange(18, data.len() as int)))
            } else {
                (true, false, len, Seq::empty())
            }
        } else {
            (true, false, 0, Seq::empty())
        }
    } else {
        (false, false, 0, Seq::empty())
    }
}

/// The bytes sent for a frame: preamble, then the encoded identifier, the
/// encoded length (high byte first) and the encoded payload, each encoded
/// from a fresh coder.
pub open spec fn spec_assemble(amble: Seq<u8>, ident: Seq<u8>, len: u16, data: Seq<u8>) -> Seq<u8> {
    amble + spec_ecc_encode(0, ident) + spec_ecc_encode(0, seq![(len >> 8u16) as u8, len as u8])
        + spec_ecc_encode(0, data)
}

/// Round trip: reading back an assembled frame of 1 to 65535 payload bytes,
/// preamble removed, finds the identifier and the whole frame, with its
/// length and payload. A frame with no payload is 18 bytes, too short for
/// the reader's check of at least 21: it finds the identifier but never the
/// whole frame.
pub proof fn lemma_frame_round_trip(d: Seq<u8>)
    requires
        d.len() <= 65535,
    ensures
        d.len() >= 1 ==> spec_parse(spec_assemble(spec_amble_bytes(), spec_ident_bytes(), d.len() as u16, d).skip(4))
            == (true, true, d.len() as u16, d),
        d.len() == 0 ==> spec_parse(spec_assemble(spec_amble_bytes(), spec_ident_bytes(), d.len() as u16, d).skip(4))
            == (true, false, 0u16, Seq::<u8>::empty()),
{
    lemma_constants();
    let len = d.len() as u16;
    let hi = (len >> 8u16) as u8;
    let lo = len as u8;
    let e1 = spec_ecc_encode(0, spec_ident_bytes());
    let e2 = spec_ecc_encode(0, seq![hi, lo]);
    let e3 = spec_ecc_encode(0, d);
    let s = spec_assemble(spec_amble_bytes(), spec_ident_bytes(), len, d).skip(4);
    assert(s =~= e1 + e2 + e3);
    assert(s.subrange(0, 12) =~= e1);
    assert(s.subrange(12, 18) =~= e2);
    assert(s.subrange(18, s.len() as int) =~= e3);
    lemma_ecc_round_trip(0, spec_ident_bytes());
    lemma_ecc_round_trip(0, seq![hi, lo]);
    lemma_ecc_round_trip(0, d);
    assert(hi as int * 256 + lo as int == len) by (bit_vector)
        requires hi == (len >> 8u16) as u8, lo == len as u8;
    assert(seq![hi, lo][0] == hi && seq![hi, lo][1] == lo);
}

/// A frame reads as complete only when the received bytes hold exactly the
/// encoded identifier, the encoded length and `len` encoded payload bytes
/// (up to two bytes left over from the division by three); a complete frame
/// has exactly `len` payload bytes.
pub proof fn lemma_parse_complete_exact(data: Seq<u8>)
    ensures
        spec_parse(data).1 ==> spec_parse(data).0,
        spec_parse(data).1 ==> data.len() / 3 == 6 + spec_parse(data).2,
        spec_parse(data).1 ==> spec_parse(data).3.len() == spec_parse(data).2,
        !spec_parse(data).1 ==> spec_parse(data).3.len() == 0,
{
    if spec_parse(data).1 {
        let len = spec_parse(data).2 as int;
        let rest = data.subrange(18, data.len() as int);
        assert(rest.len() == data.len() - 18);
        assert(rest.len() / 3 == len);
    }
}

/// Whether two byte slices hold the same bytes.
fn bytes_equal(a: &[u8], b: &[u8]) -> (r: bool)
    ensures
        r == (a@ == b@),
{
    if a.len() != b.len() {
        return false;
    }
    let mut i: usize = 0;
    while i < a.len()
        invariant
            a@.len() == b@.len(),
            i <= a@.len(),
            forall|j: int| 0 <= j < i ==> a@[j] == b@[j],
        decreases a@.len() - i,
    {
        if a[i] != b[i] {
            return false;
        }
        i += 1;
    }
    assert(a@ =~= b@);
    true
}

/// The Frame design implemented here is CCSDS SDLP which is specifically
/// designed for use in spacecraft and space bound communication.
///
/// Here is the official standard: <https://public.ccsds.org/Pubs/132x0b3.pdf>
pub struct Frame {
    // Transfer Frame Primary Header
    /// 2 bits
    version_number: u8,
    /// 10 bits
    spacecraft_id: u16,
    /// 3 bits
    virtual_channel_id: u8,
    /// 1 bit
    ocf: bool,
    /// 8 bits
    master_frame_count: u8,
    /// 8 bits
    virtual_frame_count: u8,
    /// 16 bits
    data_status: u16,
    /// this is the data that follows the frame header (the actual data being sent/received)
    pub data: Vec<u8>,
    amble: Vec<u8>,
    ident: Vec<u8>,
    pub has_ident: bool,
    pub is_complete: bool,
    len: u16,
}

impl Frame {
    /// The payload.
    pub closed spec fn spec_data(&self) -> Seq<u8> {
        self.data@
    }

    /// Whether the identifier was found.
    pub closed spec fn spec_has_ident(&self) -> bool {
        self.has_ident
    }

    /// Whether the whole frame was there.
    pub closed spec fn spec_is_complete(&self) -> bool {
        self.is_complete
    }

    /// The length field.
    pub closed spec fn spec_len(&self) -> u16 {
        self.len
    }

    /// The preamble the frame is sent with.
    pub closed spec fn spec_amble(&self) -> Seq<u8> {
        self.amble@
    }

    /// The identifier the frame is sent with.
    pub closed spec fn spec_ident(&self) -> Seq<u8> {
        self.ident@
    }

    /// The header fields are all zero.
    pub closed spec fn spec_header_zero(&self) -> bool {
        &&& self.version_number == 0
        &&& self.spacecraft_id == 0
        &&& self.virtual_channel_id == 0
        &&& !self.ocf
        &&& self.master_frame_count == 0
        &&& self.virtual_frame_count == 0
        &&& self.data_status == 0
    }

    /// Creates a frame around `bytes`; the length field keeps the low 16 bits
    /// of the length.
    pub fn new(bytes: &[u8]) -> (r: Frame)
        ensures
            r.spec_data() == bytes@,
            r.spec_has_ident(),
            r.spec_is_complete(),
            r.spec_len() == bytes@.len() as u16,
            r.spec_amble() == spec_amble_bytes(),
            r.spec_ident() == spec_ident_bytes(),
            r.spec_header_zero(),
    {
        Frame {
            version_number: 0,
            spacecraft_id: 0,
            virtual_channel_id: 0,
            ocf: false,
            master_frame_count: 0,
            virtual_frame_count: 0,
            data_status: 0,
            data: slice_to_vec(bytes),
            amble: amble_vec(),
            ident: ident_vec(),
            has_ident: true,
            is_complete: true,
            len: bytes.len() as u16,
        }
    }

    /// Encodes `bin` with a fresh coder.
    fn encode(bin: &[u8]) -> (r: Vec<u8>)
        requires
            bin@.len() < isize::MAX,
            3 * bin@.len() <= usize::MAX,
        ensures
            r@ == spec_ecc_encode(0, bin@),
    {
        let mut encoder = WtfECC::new();
        let mut output = encoder.encode(bytes_copy_from_slice(bin));
        let len = chain3_remaining(&output);
        let ghost whole = chain3_view(output);
        let out = chain3_copy_to_bytes(&mut output, len);
        assert(whole.take(len as int) =~= whole);
        slice_to_vec(bytes_as_slice(&out))
    }

    /// Decodes `bin` with a fresh coder.
    fn decode(bin: &[u8]) -> (r: Vec<u8>)
        requires
            bin@.len() < isize::MAX,
        ensures
            r@ == spec_ecc_decode(0, bin@),
    {
        let mut decoder = WtfECC::new();
        let mut bytes = bytes_copy_from_slice(bin);
        let mut decoded = decoder.decode(&mut bytes);
        let out = bytes_copy_to_bytes(&mut decoded, bin.len() / 3);
        assert(bytes_view(out) =~= spec_ecc_decode(0, bin@));
        slice_to_vec(bytes_as_slice(&out))
    }

    /// Reads a frame out of received bytes (the preamble already removed).
    /// The first 12 bytes must be there.
    pub fn from(data: &[u8]) -> (r: Frame)
        requires
            data@.len() >= 12,
            data@.len() < isize::MAX,
        ensures
            (r.spec_has_ident(), r.spec_is_complete(), r.spec_len(), r.spec_data()) == spec_parse(data@),
            r.spec_amble() == spec_amble_bytes(),
            r.spec_ident() == spec_ident_bytes(),
            r.spec_header_zero(),
    {
        let mut new_frame = Frame::new(&[]);
        new_frame.has_ident = false;
        new_frame.is_complete = false;
        let ident_length_bytes = new_frame.ident.len();
        let ident_decoded = Frame::decode(slice_subrange(data, 0, 12));
        if ident_decoded.len() >= ident_length_bytes && bytes_equal(ident_decoded.as_slice(), ident_vec().as_slice()) {
            new_frame.has_ident = true;
            if data.len() / 3 >= ident_length_bytes + 3 {
                let len_bin = Frame::decode(slice_subrange(data, 12, 18));
                assert(len_bin@.len() == 2);
                let hi = len_bin[0];
                let lo = len_bin[1];
                new_frame.len = ((hi as u16) << 8u16) | (lo as u16);
                assert(((hi as u16) << 8u16) | (lo as u16) == hi as u16 * 256 + lo as u16) by (bit_vector);
                if data.len() / 3 == ident_length_bytes + 2 + new_frame.len as usize {
                    new_frame.is_complete = true;
                    let data_bin = Frame::decode(slice_subrange(data, 18, data.len()));
                    new_frame.data = data_bin;
                }
            }
        }
        assert(new_frame.data@ =~= spec_parse(data@).3);
        new_frame
    }

    /// Assembles the frame for transmission: preamble, then the encoded
    /// identifier, length and payload.
    pub fn assemble(&self) -> (r: Vec<u8>)
        requires
            self.spec_data().len() < isize::MAX,
            3 * self.spec_data().len() <= usize::MAX,
            self.spec_ident().len() < isize::MAX,
            3 * self.spec_ident().len() <= usize::MAX,
        ensures
            r@ == spec_assemble(self.spec_amble(), self.spec_ident(), self.spec_len(), self.spec_data()),
    {
        let len_bin: [u8; 2] = [(self.len >> 8u16) as u8, self.len as u8];
        let mut to_return = self.amble.clone();
        let ghost a = to_return@;
        let e1 = Frame::encode(self.ident.as_slice());
        to_return.extend_from_slice(e1.as_slice());
        let e2 = Frame::encode(vstd::array::array_as_slice(&len_bin));
        to_return.extend_from_slice(e2.as_slice());
        let e3 = Frame::encode(self.data.as_slice());
        to_return.extend_from_slice(e3.as_slice());
        assert(len_bin@ =~= seq![(self.len >> 8u16) as u8, self.len as u8]);
        assert(to_return@ =~= spec_assemble(self.spec_amble(), self.spec_ident(), self.spec_len(), self.data@));
        to_return
    }
}

} // verus!
