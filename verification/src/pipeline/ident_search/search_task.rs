//! Capturing a frame from a stream of bytes: search the bits for the
//! encoded identifier, then realign the bytes that follow to the bit where
//! it ended, read the encoded length and capture that many encoded bytes.
//!
//! Each byte that arrives is one step of the capture; the capture says
//! when a frame's bytes are complete (they are not decoded here).
use vstd::prelude::*;
use bytes::{Bytes, BytesMut};
use crate::buf::{
    bytes_get_u16_le, bytes_mut_copy_to_bytes, bytes_mut_freeze, bytes_mut_len, bytes_mut_put_u8,
    bytes_mut_view, bytes_mut_with_capacity, bytes_view,
};
use crate::dsp::wtf_ecc::{WtfECC, spec_ecc_decode};
use super::search_arr::{
    SearchArr, ShiftInfo, lemma_bits_concat, lemma_bits_pack, lemma_pack_bits, spec_bit, spec_bits, spec_pack,
    spec_search,
};

verus! {

/// The bits of `input`, after the `pending` bits, split into the next whole
/// byte and the bits left over.
pub open spec fn spec_realign(pending: Seq<bool>, input: u8) -> (u8, Seq<bool>) {
    let all = pending + spec_bits(seq![input]);
    (spec_pack(all.take(8))[0], all.skip(8))
}

/// The bits a search left over, oldest first.
pub open spec fn spec_pending_of(info: ShiftInfo) -> Seq<bool> {
    Seq::new(info.offset as nat, |j: int| spec_bit(info.head, j as u8))
}

/// Whether the leftover bits are the leftmost `offset` bits of `head`, with
/// fewer than eight of them.
pub open spec fn spec_info_ok(info: ShiftInfo) -> bool {
    info.offset < 8 && ((info.head as u16) << (info.offset as u16)) & 0xffu16 == 0
}

/// The bytes realigned from `inputs` after the `pending` bits, and the bits
/// left waiting.
pub open spec fn spec_realign_all(pending: Seq<bool>, inputs: Seq<u8>) -> (Seq<u8>, Seq<bool>)
    decreases inputs.len(),
{
    if inputs.len() == 0 {
        (Seq::empty(), pending)
    } else {
        let (out, p) = spec_realign(pending, inputs[0]);
        let (outs, rest) = spec_realign_all(p, inputs.drop_first());
        (seq![out] + outs, rest)
    }
}

/// One realigning step: the byte realigned and the bits of `input` that
/// wait, and what the step loses, adds and reorders: nothing.
pub proof fn lemma_realign_step(pending: Seq<bool>, input: u8)
    requires
        pending.len() < 8,
    ensures
        spec_bits(seq![spec_realign(pending, input).0]) + spec_realign(pending, input).1 == pending + spec_bits(
            seq![input],
        ),
        spec_realign(pending, input).1.len() == pending.len(),
{
    let all = pending + spec_bits(seq![input]);
    let (out, rest) = spec_realign(pending, input);
    lemma_bits_pack(all.take(8));
    assert(spec_pack(all.take(8)) =~= seq![out]);
    assert(spec_bits(seq![out]) + rest =~= all);
}

/// Realigning loses, adds and reorders no bit: the bits of the bytes
/// realigned from `inputs`, followed by the bits left waiting, are the bits
/// that waited before, followed by the bits of `inputs`; as many bits wait
/// afterwards as before.
pub proof fn lemma_realign_keeps_bits(pending: Seq<bool>, inputs: Seq<u8>)
    requires
        pending.len() < 8,
    ensures
        spec_bits(spec_realign_all(pending, inputs).0) + spec_realign_all(pending, inputs).1 == pending
            + spec_bits(inputs),
        spec_realign_all(pending, inputs).1.len() == pending.len(),
        spec_realign_all(pending, inputs).0.len() == inputs.len(),
    decreases inputs.len(),
{
    if inputs.len() > 0 {
        let x = inputs[0];
        let tail = inputs.drop_first();
        let (out, p) = spec_realign(pending, x);
        lemma_realign_step(pending, x);
        lemma_realign_keeps_bits(p, tail);
        let (outs, rest) = spec_realign_all(p, tail);
        lemma_bits_concat(seq![out], outs);
        lemma_bits_concat(seq![x], tail);
        assert(seq![x] + tail =~= inputs);
        assert(spec_bits(seq![out] + outs) + rest =~= spec_bits(seq![out]) + (spec_bits(outs) + rest));
        assert(pending + spec_bits(inputs) =~= (pending + spec_bits(seq![x])) + spec_bits(tail));
    }
}

/// The first two bytes of `s` as a little-endian number.
pub open spec fn spec_le_u16(s: Seq<u8>) -> nat {
    (s[0] + 256 * s[1]) as nat
}

proof fn lemma_leftover_step(head: u8, offset: u16)
    by (bit_vector)
    requires
        1 <= offset <= 8,
        ((head as u16) << offset) & 0xffu16 == 0,
    ensures
        ((((head << 1u8) as u8) as u16) << ((offset - 1) as u16)) & 0xffu16 == 0,
{
}

/// A search that stops early leaves fewer than eight bits, as the leftmost
/// bits of the last byte.
pub proof fn lemma_search_info_ok(window: Seq<bool>, head: u8, offset: u8)
    requires
        offset <= 8,
        ((head as u16) << (offset as u16)) & 0xffu16 == 0,
    ensures
        spec_search(window, head, offset).1 matches Some(info) ==> spec_info_ok(info),
    decreases offset,
{
    if offset > 0 {
        lemma_leftover_step(head, offset as u16);
        let next = window.drop_first().push(head >= 0x80u8);
        lemma_search_info_ok(next, (head << 1u8) as u8, (offset - 1) as u8);
    }
}

proof fn lemma_whole_byte_leftover(x: u8)
    by (bit_vector)
    ensures
        ((x as u16) << 8u16) & 0xffu16 == 0,
{
}

/// The state of a capture.
#[derive(Debug, Clone, Copy, PartialEq, Eq, Structural)]
pub enum State {
    /// Searching for the identifier.
    Ident,
    /// Reading the encoded length.
    Len,
    /// Reading the encoded payload.
    Data,
}

/// A capture as its parts: the state, the search window, the bits that
/// wait for the next byte, the bytes realigned so far and the number of
/// payload bytes to capture.
pub struct CaptureView {
    pub state: State,
    pub window: Seq<bool>,
    pub pending: Seq<bool>,
    pub data: Seq<u8>,
    pub target: nat,
}

/// A capture that has seen nothing.
pub open spec fn spec_capture_start() -> CaptureView {
    CaptureView {
        state: State::Ident,
        window: Seq::new(96, |_i: int| false),
        pending: Seq::empty(),
        data: Seq::empty(),
        target: 0,
    }
}

/// One byte into a capture: the capture after it, and the encoded payload
/// when the byte completed it.
pub open spec fn spec_step(t: CaptureView, input: u8) -> (CaptureView, Option<Seq<u8>>) {
    match t.state {
        State::Ident => {
            let (w, found) = spec_search(t.window, input, 8);
            match found {
                Some(info) => (
                    CaptureView { state: State::Len, window: w, pending: spec_pending_of(info), ..t },
                    None,
                ),
                None => (CaptureView { window: w, ..t }, None),
            }
        },
        State::Len => {
            let (out, p) = spec_realign(t.pending, input);
            let d = t.data.push(out);
            if d.len() < 6 {
                (CaptureView { pending: p, data: d, ..t }, None)
            } else {
                let target = 3 * spec_le_u16(spec_ecc_decode(0, d));
                if target == 0 {
                    (spec_capture_start(), Some(Seq::empty()))
                } else {
                    (CaptureView { state: State::Data, pending: p, data: Seq::empty(), target: target, ..t }, None)
                }
            }
        },
        State::Data => {
            let (out, p) = spec_realign(t.pending, input);
            let d = t.data.push(out);
            if d.len() == t.target {
                (spec_capture_start(), Some(d))
            } else {
                (CaptureView { pending: p, data: d, ..t }, None)
            }
        },
    }
}

proof fn lemma_realign_bits(carry: u16, o: u16, input: u8, c: u16, rot: u16, out: u8, nc: u16)
    by (bit_vector)
    requires
        o < 8,
        carry & 0xffu16 == 0,
        (carry >> 8u16) < (1u16 << o),
        c == carry | (input as u16),
        rot == (if o == 0 { c } else { (c >> o) | (c << ((16 - o) as u16)) }),
        out == rot as u8,
        nc == (rot >> 8u16) << o,
    ensures
        forall|j: u8|
            #![trigger spec_bit(out, j)]
            j < 8 ==> spec_bit(out, j) == (if (j as u16) < o {
                spec_bit(((carry >> 8u16) << ((8 - o) as u16)) as u8, j)
            } else {
                spec_bit(input, (j - o) as u8)
            }),
        forall|j: u8|
            #![trigger spec_bit(((nc >> 8u16) << ((8 - o) as u16)) as u8, j)]
            (j as u16) < o ==> spec_bit(((nc >> 8u16) << ((8 - o) as u16)) as u8, j) == spec_bit(
                input,
                (8 - o + j) as u8,
            ),
        nc & 0xffu16 == 0,
        (nc >> 8u16) < (1u16 << o),
{
}

proof fn lemma_info_bits(head: u8, o: u16)
    by (bit_vector)
    requires
        o < 8,
        ((head as u16) << o) & 0xffu16 == 0,
    ensures
        (((head as u16) << o) >> 8u16) < (1u16 << o),
        forall|j: u8|
            #![trigger spec_bit(((((head as u16) << o) >> 8u16) << ((8 - o) as u16)) as u8, j)]
            (j as u16) < o ==> spec_bit(((((head as u16) << o) >> 8u16) << ((8 - o) as u16)) as u8, j)
                == spec_bit(head, j),
{
}

/// Realigns a byte stream: holds the bits that wait for the next byte.
#[derive(Debug)]
struct Shifter {
    carry: u16,
    offset: u32,
}

impl View for Shifter {
    type V = Seq<bool>;

    /// The waiting bits, oldest first.
    closed spec fn view(&self) -> Seq<bool> {
        Seq::new(
            self.offset as nat,
            |j: int| spec_bit(((self.carry >> 8u16) << ((8 - self.offset) as u16)) as u8, j as u8),
        )
    }
}

impl Shifter {
    /// Fewer than eight bits wait, in the byte above the low byte of
    /// `carry`.
    spec fn wf(&self) -> bool {
        &&& self.offset < 8
        &&& self.carry & 0xffu16 == 0
        &&& (self.carry >> 8u16) < (1u16 << (self.offset as u16))
    }

    /// No bits wait.
    fn default() -> (r: Self)
        ensures
            r.wf(),
            r@ == Seq::<bool>::empty(),
    {
        let r = Shifter { carry: 0, offset: 0 };
        assert(0u16 & 0xffu16 == 0 && (0u16 >> 8u16) < (1u16 << 0u16)) by (bit_vector);
        assert(r@ =~= Seq::<bool>::empty());
        r
    }

    /// The leftover bits of a search wait.
    fn from_info(value: ShiftInfo) -> (r: Self)
        requires
            spec_info_ok(value),
        ensures
            r.wf(),
            r@ == spec_pending_of(value),
    {
        let offset = value.offset;
        let r = Self { carry: (value.head as u16) << (offset as u16), offset: offset as u32 };
        proof {
            lemma_info_bits(value.head, offset as u16);
            assert(r@ =~= spec_pending_of(value));
        }
        r
    }

    /// Appends to `dst` the next whole byte of the waiting bits followed by
    /// the bits of `input`; the bits of `input` that do not fit wait.
    fn push(&mut self, input: u8, dst: &mut BytesMut)
        requires
            old(self).wf(),
            bytes_mut_view(*old(dst)).len() < isize::MAX,
        ensures
            final(self).wf(),
            bytes_mut_view(*final(dst)) == bytes_mut_view(*old(dst)).push(spec_realign(old(self)@, input).0),
            final(self)@ == spec_realign(old(self)@, input).1,
    {
        let ghost pending = self@;
        let ghost carry0 = self.carry;
        let o = self.offset as u16;
        let c: u16 = self.carry | (input as u16);
        let rot: u16 = if o == 0 { c } else { (c >> o) | (c << (16 - o)) };
        let out = rot as u8;
        bytes_mut_put_u8(dst, out);
        let nc: u16 = (rot >> 8u16) << o;
        self.carry = nc;
        proof {
            lemma_realign_bits(carry0, o, input, c, rot, out, nc);
            let all = pending + spec_bits(seq![input]);
            assert(all.len() == 8 + o);
            assert forall|i: int| 0 <= i < 8 implies spec_bits(seq![out])[i] == #[trigger] all[i] by {
                assert(spec_bits(seq![out])[i] == spec_bit(out, i as u8));
                if i >= o {
                    assert(all[i] == spec_bits(seq![input])[i - o]);
                }
            }
            lemma_pack_bits(seq![out]);
            assert(spec_bits(seq![out]) =~= all.take(8));
            assert(self@ =~= all.skip(8)) by {
                assert forall|j: int| 0 <= j < o implies #[trigger] self@[j] == all.skip(8)[j] by {
                    assert(all.skip(8)[j] == all[8 + j]);
                    assert(all[8 + j] == spec_bits(seq![input])[8 + j - o]);
                    assert(spec_bit(((nc >> 8u16) << ((8 - o) as u16)) as u8, j as u8) == spec_bit(input, (8 - o + j) as u8));
                }
            }
        }
    }
}

/// Captures the encoded frames of a byte stream. It looks for the encoded
/// identifier at any bit offset; once it finds it, it realigns the bytes
/// that follow: the six bytes of the encoded length, then, right after them,
/// length times three bytes of encoded payload, which it hands on (not
/// decoded) before looking for the next identifier. This is the layout
/// `Frame::encode` sends; a length of zero hands on an empty payload as soon
/// as the length is in.
#[derive(Debug)]
pub struct Task {
    state: State,
    searcher: SearchArr,
    shifter: Shifter,
    data: BytesMut,
    target: usize,
}

impl View for Task {
    type V = CaptureView;

    closed spec fn view(&self) -> CaptureView {
        CaptureView {
            state: self.state,
            window: self.searcher@,
            pending: self.shifter@,
            data: bytes_mut_view(self.data),
            target: self.target as nat,
        }
    }
}

impl Task {
    /// The number of bytes the encoded length takes.
    const LEN_LEN: usize = 2 * WtfECC::EXPANSION_RATIO;

    /// What every reachable capture keeps: a well-formed realigner, a full
    /// window, and fewer realigned bytes than the state reads.
    pub closed spec fn inv(&self) -> bool {
        &&& self.shifter.wf()
        &&& self.searcher@.len() == 96
        &&& self.target <= 3 * 0xffff
        &&& self.state == State::Ident ==> bytes_mut_view(self.data).len() == 0
        &&& self.state == State::Len ==> bytes_mut_view(self.data).len() < 6
        &&& self.state == State::Data ==> bytes_mut_view(self.data).len() < self.target
    }

    /// A capture that has seen nothing.
    pub fn new() -> (r: Self)
        ensures
            r.inv(),
            r@ == spec_capture_start(),
    {
        Self {
            state: State::Ident,
            searcher: SearchArr::new(),
            shifter: Shifter::default(),
            data: bytes_mut_with_capacity(Self::LEN_LEN),
            target: 0,
        }
    }

    /// Takes one byte of the stream; gives the encoded payload of a frame
    /// when this byte completed it.
    pub fn step(&mut self, input: u8) -> (r: Option<Bytes>)
        requires
            old(self).inv(),
        ensures
            final(self).inv(),
            final(self)@ == spec_step(old(self)@, input).0,
            match r {
                Some(b) => spec_step(old(self)@, input).1 == Some(bytes_view(b)),
                None => spec_step(old(self)@, input).1 is None,
            },
    {
        match self.state {
            State::Ident => {
                let found = self.searcher.push(input);
                if let Some(info) = found {
                    proof {
                        lemma_whole_byte_leftover(input);
                        lemma_search_info_ok(old(self)@.window, input, 8);
                    }
                    self.shifter = Shifter::from_info(info);
                    self.state = State::Len;
                }
                None
            },
            State::Len => {
                self.shifter.push(input, &mut self.data);
                if bytes_mut_len(&self.data) < Self::LEN_LEN {
                    None
                } else {
                    let mut decoder = WtfECC::new();
                    let mut encoded = bytes_mut_copy_to_bytes(&mut self.data, Self::LEN_LEN);
                    let ghost d = bytes_view(encoded);
                    assert(d =~= old(self)@.data.push(spec_realign(old(self)@.pending, input).0));
                    let mut output = decoder.decode(&mut encoded);
                    let len = bytes_get_u16_le(&mut output) as usize;
                    self.target = len * WtfECC::EXPANSION_RATIO;
                    self.data = bytes_mut_with_capacity(self.target);
                    if self.target == 0 {
                        Some(self.send_and_reset())
                    } else {
                        self.state = State::Data;
                        None
                    }
                }
            },
            State::Data => {
                self.shifter.push(input, &mut self.data);
                if bytes_mut_len(&self.data) == self.target {
                    Some(self.send_and_reset())
                } else {
                    None
                }
            },
        }
    }

    /// Hands out the captured bytes and starts over.
    fn send_and_reset(&mut self) -> (r: Bytes)
        ensures
            final(self).inv(),
            final(self)@ == spec_capture_start(),
            bytes_view(r) == bytes_mut_view(old(self).data),
    {
        let captured_bytes = bytes_mut_freeze(self.take_data(Self::LEN_LEN));
        self.searcher = SearchArr::new();
        self.shifter = Shifter::default();
        self.state = State::Ident;
        self.target = 0;
        captured_bytes
    }

    /// Takes the captured bytes, leaving an empty buffer.
    pub fn take_data(&mut self, capacity: usize) -> (r: BytesMut)
        ensures
            bytes_mut_view(r) == old(self)@.data,
            final(self)@ == (CaptureView { data: Seq::empty(), ..old(self)@ }),
            old(self).inv() ==> final(self).inv(),
    {
        let mut new_bytes = bytes_mut_with_capacity(capacity);
        std::mem::swap(&mut self.data, &mut new_bytes);
        new_bytes
    }
}

} // verus!
