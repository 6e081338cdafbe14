//! A window over the last bits of a byte stream that reports when the
//! window holds the encoded frame identifier.
use vstd::prelude::*;
use bitvec::order::Msb0;
use bitvec::view::BitView;
use crate::buf::{bytes_as_slice, bytes_copy_from_slice, bytes_len, bytes_view};
use crate::dsp::wtf_ecc::{WtfECC, spec_ecc_decode};
use crate::pipeline::frame::{Frame, spec_frame_ident};

verus! {

/// Bit `j` of `x`, counting from the most significant bit (`j == 0`).
pub open spec fn spec_bit(x: u8, j: u8) -> bool {
    (x >> ((7u8 - j) as u8)) & 1u8 == 1u8
}

/// The bits of `s`, each byte's most significant bit first.
pub open spec fn spec_bits(s: Seq<u8>) -> Seq<bool> {
    Seq::new(8 * s.len(), |i: int| spec_bit(s[i / 8], (i % 8) as u8))
}

/// The byte whose bits, most significant first, are `b0` to `b7`.
pub open spec fn spec_byte_of(b0: bool, b1: bool, b2: bool, b3: bool, b4: bool, b5: bool, b6: bool, b7: bool) -> u8 {
    (if b0 { 0x80u8 } else { 0u8 }) | (if b1 { 0x40u8 } else { 0u8 }) | (if b2 { 0x20u8 } else { 0u8 })
        | (if b3 { 0x10u8 } else { 0u8 }) | (if b4 { 0x08u8 } else { 0u8 }) | (if b5 { 0x04u8 } else { 0u8 })
        | (if b6 { 0x02u8 } else { 0u8 }) | (if b7 { 0x01u8 } else { 0u8 })
}

/// The bytes made of the bits of `b`, eight at a time, most significant bit
/// first.
pub open spec fn spec_pack(b: Seq<bool>) -> Seq<u8> {
    Seq::new(
        b.len() / 8,
        |k: int|
            spec_byte_of(
                b[8 * k],
                b[8 * k + 1],
                b[8 * k + 2],
                b[8 * k + 3],
                b[8 * k + 4],
                b[8 * k + 5],
                b[8 * k + 6],
                b[8 * k + 7],
            ),
    )
}

/// Whether a window of bits, packed into bytes and decoded, is the frame
/// identifier.
pub open spec fn spec_is_ident(window: Seq<bool>) -> bool {
    spec_ecc_decode(0, spec_pack(window)) == spec_frame_ident()
}

/// Where a search stopped: the bits of the last byte that were not yet
/// shifted into the window.
#[derive(Debug, Copy, Clone, PartialEq, Eq, Structural)]
pub struct ShiftInfo {
    /// The number of bits left over.
    pub offset: u8,
    /// The left-over bits, as the leftmost `offset` bits.
    pub head: u8,
}

/// Shifts the bits of `head`, most significant first, into `window` one at
/// a time, stopping after the first bit that makes the window the encoded
/// identifier; `offset` bits of `head` are left to shift. Gives the final
/// window and, when the search stopped early, where it stopped.
pub open spec fn spec_search(window: Seq<bool>, head: u8, offset: u8) -> (Seq<bool>, Option<ShiftInfo>)
    decreases offset,
{
    if offset == 0 {
        (window, None)
    } else {
        let next = window.drop_first().push(head >= 0x80u8);
        let rest = (head << 1u8) as u8;
        if spec_is_ident(next) {
            (next, Some(ShiftInfo { offset: (offset - 1) as u8, head: rest }))
        } else {
            spec_search(next, rest, (offset - 1) as u8)
        }
    }
}

proof fn lemma_byte_of_bits(x: u8)
    by (bit_vector)
    ensures
        spec_byte_of(
            spec_bit(x, 0),
            spec_bit(x, 1),
            spec_bit(x, 2),
            spec_bit(x, 3),
            spec_bit(x, 4),
            spec_bit(x, 5),
            spec_bit(x, 6),
            spec_bit(x, 7),
        ) == x,
{
}

/// Packing the bits of a byte sequence gives the bytes back.
pub proof fn lemma_pack_bits(s: Seq<u8>)
    ensures
        spec_pack(spec_bits(s)) == s,
{
    let b = spec_bits(s);
    assert forall|k: int| 0 <= k < s.len() implies #[trigger] spec_pack(b)[k] == s[k] by {
        lemma_byte_of_bits(s[k]);
        assert((8 * k) / 8 == k && (8 * k) % 8 == 0);
        assert((8 * k + 1) / 8 == k && (8 * k + 1) % 8 == 1);
        assert((8 * k + 2) / 8 == k && (8 * k + 2) % 8 == 2);
        assert((8 * k + 3) / 8 == k && (8 * k + 3) % 8 == 3);
        assert((8 * k + 4) / 8 == k && (8 * k + 4) % 8 == 4);
        assert((8 * k + 5) / 8 == k && (8 * k + 5) % 8 == 5);
        assert((8 * k + 6) / 8 == k && (8 * k + 6) % 8 == 6);
        assert((8 * k + 7) / 8 == k && (8 * k + 7) % 8 == 7);
    }
    assert(spec_pack(b) =~= s);
}

proof fn lemma_bits_of_byte(b0: bool, b1: bool, b2: bool, b3: bool, b4: bool, b5: bool, b6: bool, b7: bool)
    by (bit_vector)
    ensures
        spec_bit(spec_byte_of(b0, b1, b2, b3, b4, b5, b6, b7), 0) == b0,
        spec_bit(spec_byte_of(b0, b1, b2, b3, b4, b5, b6, b7), 1) == b1,
        spec_bit(spec_byte_of(b0, b1, b2, b3, b4, b5, b6, b7), 2) == b2,
        spec_bit(spec_byte_of(b0, b1, b2, b3, b4, b5, b6, b7), 3) == b3,
        spec_bit(spec_byte_of(b0, b1, b2, b3, b4, b5, b6, b7), 4) == b4,
        spec_bit(spec_byte_of(b0, b1, b2, b3, b4, b5, b6, b7), 5) == b5,
        spec_bit(spec_byte_of(b0, b1, b2, b3, b4, b5, b6, b7), 6) == b6,
        spec_bit(spec_byte_of(b0, b1, b2, b3, b4, b5, b6, b7), 7) == b7,
{
}

/// The bits of the bytes packed from eight bits are those bits.
pub proof fn lemma_bits_pack(b: Seq<bool>)
    requires
        b.len() == 8,
    ensures
        spec_bits(spec_pack(b)) == b,
{
    lemma_bits_of_byte(b[0], b[1], b[2], b[3], b[4], b[5], b[6], b[7]);
    let s = spec_bits(spec_pack(b));
    assert forall|i: int| 0 <= i < 8 implies #[trigger] s[i] == b[i] by {
        assert(i / 8 == 0);
        if i == 0 {} else if i == 1 {} else if i == 2 {} else if i == 3 {} else if i == 4 {} else if i == 5 {} else if i == 6 {} else {}
    }
    assert(s =~= b);
}

/// The bits of two byte sequences one after the other are the bits of each,
/// one after the other.
pub proof fn lemma_bits_concat(a: Seq<u8>, c: Seq<u8>)
    ensures
        spec_bits(a + c) == spec_bits(a) + spec_bits(c),
{
    let l = spec_bits(a + c);
    let r = spec_bits(a) + spec_bits(c);
    assert forall|i: int| 0 <= i < l.len() implies #[trigger] l[i] == r[i] by {
        if i >= 8 * a.len() {
            let k = i - 8 * a.len();
            assert(i / 8 == a.len() + k / 8 && i % 8 == k % 8) by (nonlinear_arith)
                requires
                    k == i - 8 * a.len(),
                    k >= 0,
            ;
        } else {
            assert(i / 8 < a.len()) by (nonlinear_arith)
                requires
                    0 <= i < 8 * a.len(),
            ;
        }
    }
    assert(l =~= r);
}

proof fn lemma_zero_bits()
    by (bit_vector)
    ensures
        forall|j: u8| #![trigger spec_bit(0u8, j)] j < 8 ==> !spec_bit(0u8, j),
{
}

proof fn lemma_set_low_bit(x: u8, b: u8)
    by (bit_vector)
    requires
        b <= 1,
        !spec_bit(x, 7),
    ensures
        forall|j: u8| #![trigger spec_bit(x | b, j)] j < 7 ==> spec_bit(x | b, j) == spec_bit(x, j),
        spec_bit(x | b, 7) == (b == 1),
{
}

proof fn lemma_top_bit(h: u8)
    by (bit_vector)
    ensures
        (h >> 7u8) <= 1,
        ((h >> 7u8) == 1) == (h >= 0x80u8),
{
}

/// The top bit of a byte, and the bits of the byte shifted left once.
pub proof fn lemma_shift_head(h: u8)
    by (bit_vector)
    ensures
        spec_bit(h, 0) == (h >= 0x80u8),
        forall|j: u8| #![trigger spec_bit((h << 1u8) as u8, j)] j < 7 ==> spec_bit((h << 1u8) as u8, j) == spec_bit(h, (j + 1) as u8),
{
}

/// `BitSlice::shift_start` over the bits of `arr`, each byte's most
/// significant bit first (`Msb0`): every bit moves `by` places towards the
/// start and `by` zero bits fill the end. The crate panics when `by` is
/// larger than the number of bits, which `requires` rules out.
#[verifier::external_body]
fn shift_bits_left(arr: &mut [u8; 12], by: usize)
    requires
        by <= 96,
    ensures
        spec_bits(final(arr)@) == spec_bits(old(arr)@).skip(by as int) + Seq::new(by as nat, |_i: int| false),
{
    arr.view_bits_mut::<Msb0>().shift_start(by);
}

/// The last bits of a byte stream, as many as the encoded identifier takes.
#[derive(Debug)]
pub struct SearchArr {
    arr: [u8; 12],
    offset: u8,
    /// left over bits
    head: u8,
}

impl View for SearchArr {
    type V = Seq<bool>;

    /// The window's bits, oldest first.
    closed spec fn view(&self) -> Seq<bool> {
        spec_bits(self.arr@)
    }
}

impl SearchArr {
    const LAST: usize = 11;

    /// An all-zero window.
    pub fn new() -> (r: Self)
        ensures
            r@ == Seq::new(96, |_i: int| false),
    {
        let r = Self { arr: [0; 12], offset: 0, head: 0 };
        proof {
            lemma_zero_bits();
            assert(r.arr@ =~= Seq::new(12, |_i: int| 0u8));
            assert forall|i: int| 0 <= i < 96 implies !#[trigger] spec_bits(r.arr@)[i] by {
                assert(r.arr@[i / 8] == 0u8);
                assert(!spec_bit(0u8, (i % 8) as u8));
            }
            assert(r@ =~= Seq::new(96, |_i: int| false));
        }
        r
    }

    /// A window holding the bits of `arr`.
    pub fn from_window(arr: [u8; 12]) -> (r: Self)
        ensures
            r@ == spec_bits(arr@),
    {
        Self { arr, offset: 0, head: 0 }
    }

    /// Shifts the bits of `x`, most significant first, into the window,
    /// stopping at the first bit after which the window decodes to the
    /// frame identifier; then the bits of `x` not yet shifted in are
    /// returned.
    pub fn push(&mut self, x: u8) -> (r: Option<ShiftInfo>)
        ensures
            (final(self)@, r) == spec_search(old(self)@, x, 8),
            final(self)@.len() == 96,
    {
        self.head = x;
        self.offset = 8;
        while self.offset > 0
            invariant
                self.offset <= 8,
                self@.len() == 96,
                spec_search(self@, self.head, self.offset) == spec_search(old(self)@, x, 8),
            decreases self.offset,
        {
            let ghost before = self@;
            let ghost h = self.head;
            let bit = self.head >> 7;
            self.head = self.head << 1;
            self.offset -= 1;
            shift_bits_left(&mut self.arr, 1);
            let ghost shifted = self.arr@;
            let last = self.arr[Self::LAST];
            self.arr[Self::LAST] = last | bit;
            proof {
                lemma_top_bit(h);
                assert(spec_bits(shifted)[95] == false);
                assert(spec_bits(shifted)[95] == spec_bit(shifted[11], 7));
                lemma_set_low_bit(last, bit);
                let next = before.drop_first().push(h >= 0x80u8);
                assert forall|i: int| 0 <= i < 96 implies #[trigger] self@[i] == next[i] by {
                    if i < 88 {
                        assert(self.arr@[i / 8] == shifted[i / 8]);
                        assert(spec_bits(shifted)[i] == before[i + 1]);
                    } else if i < 95 {
                        assert(i / 8 == 11);
                        assert(spec_bit(last | bit, (i % 8) as u8) == spec_bit(last, (i % 8) as u8));
                        assert(spec_bits(shifted)[i] == before[i + 1]);
                    } else {
                        assert(i / 8 == 11 && i % 8 == 7);
                    }
                }
                assert(self@ =~= next);
            }
            if self.is_match() {
                return Some(self.info());
            }
        }
        None
    }

    /// Whether the window, decoded, is the frame identifier.
    pub fn is_match(&self) -> (r: bool)
        ensures
            r == spec_is_ident(self@),
    {
        let mut decoder = WtfECC::new();
        let mut bytes = bytes_copy_from_slice(self.arr.as_slice());
        let output = decoder.decode(&mut bytes);
        proof {
            lemma_pack_bits(self.arr@);
        }
        let out = bytes_as_slice(&output);
        let ident = Frame::IDENT;
        assert(ident@ =~= spec_frame_ident());
        if out.len() != 4 {
            return false;
        }
        let mut i: usize = 0;
        while i < 4
            invariant
                i <= 4,
                out@.len() == 4,
                out@ == spec_ecc_decode(0, spec_pack(self@)),
                ident@ == spec_frame_ident(),
                forall|j: int| 0 <= j < i ==> out@[j] == ident@[j],
            decreases 4 - i,
        {
            if out[i] != ident[i] {
                return false;
            }
            i += 1;
        }
        assert(out@ =~= ident@);
        true
    }

    fn info(&self) -> (r: ShiftInfo)
        ensures
            r == (ShiftInfo { offset: self.offset, head: self.head }),
    {
        ShiftInfo { offset: self.offset, head: self.head }
    }
}

} // verus!
