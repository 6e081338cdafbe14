//! Bit-by-bit reception. The radio starts in "listen" mode, looking for the
//! identifier; once found it reads the next 16 bits as the frame length, then
//! records that many bytes for the main thread to read.
use vstd::prelude::*;
use vstd::slice::{slice_subrange, slice_to_vec};
use vstd::string::StringSliceAdditionalSpecFns;
use crate::tools::{bin_to_u8, spec_bin_to_u8, spec_is_bin};
use crate::pipeline::ident_search::search_arr::{lemma_bits_concat, lemma_pack_bits, spec_bit, spec_bits};
use crate::pipeline::ident_search::frame_capture::{lemma_window_after_after, spec_window_after};

verus! {

/// `s` shifted left by one bit as one big-endian number, with `bit` (its
/// lowest bit) shifted in at the end.
pub open spec fn spec_shift_in(s: Seq<u8>, bit: u8) -> Seq<u8> {
    Seq::new(
        s.len(),
        |i: int| (s[i] << 1u8) ^ (if i == s.len() - 1 { bit & 1 } else { (s[i + 1] >> 7u8) & 1 }),
    )
}

/// The bit that goes into the recording for a received byte.
pub open spec fn spec_in_bit(is_flipped: bool, b: u8) -> u8 {
    if is_flipped { !b & 1 } else { b & 1 }
}

/// A window handler as its parts.
#[verifier::ext_equal]
pub struct WindowView {
    pub window: Seq<u8>,
    pub window_flipped: Seq<u8>,
    pub recording: Seq<u8>,
    pub currently_recording: bool,
    pub bit_counter: int,
    pub ident: Seq<u8>,
    pub frame_len: u16,
    pub recording_len: int,
    pub is_flipped: bool,
}

/// One received bit (the lowest bit of `b`) into a window handler. While
/// listening it shifts into the window, and inverted into the flipped
/// window; when either then holds the identifier, recording starts (flipped
/// if the flipped window matched). While recording it shifts into the byte
/// being recorded, flipped if the identifier came flipped; after eight bits
/// the next byte starts, and when the second byte is done the first two give
/// the frame length, high byte first.
pub open spec fn spec_add(v: WindowView, b: u8) -> WindowView {
    if !v.currently_recording {
        let w = spec_shift_in(v.window, b);
        let wf = spec_shift_in(v.window_flipped, !b);
        WindowView {
            window: w,
            window_flipped: wf,
            currently_recording: w == v.ident || wf == v.ident,
            is_flipped: v.is_flipped || wf == v.ident,
            ..v
        }
    } else {
        let i = v.recording_len - 1;
        let rec = v.recording.update(i, ((v.recording[i] << 1u8) ^ spec_in_bit(v.is_flipped, b)) as u8);
        let done = v.bit_counter == 1;
        WindowView {
            recording: rec,
            bit_counter: if done { 8 } else { v.bit_counter - 1 },
            recording_len: if done { v.recording_len + 1 } else { v.recording_len },
            frame_len: if done && v.recording_len == 2 { (rec[0] as int * 256 + rec[1] as int) as u16 } else { v.frame_len },
            ..v
        }
    }
}

/// A helper that takes the received bit(s) one at a time and decides whether
/// to record them or to look for the identifier in them.
pub struct WindowHandler {
    /// This is the "view" that the radio has to find the IDENT. Once found, we then start recording
    pub window: Vec<u8>,
    /// This like window but all bits are flipped. This lets us check if IDENT is flipped
    pub window_flipped: Vec<u8>,
    /// The recording of the transmission: two length bytes, then the data.
    pub recording: Vec<u8>,
    /// Whether the IDENT was found and bits go into the recording.
    pub currently_recording: bool,
    /// The number of bits still to come for the byte being recorded.
    pub bit_counter: usize,
    /// The IDENT as bytes.
    pub ident: Vec<u8>,
    /// The length of the frame, read from the first two recorded bytes.
    pub frame_len: u16,
    /// One more than the number of recorded bytes: the byte being recorded is
    /// `recording[recording_len - 1]`.
    pub recording_len: usize,
    /// Whether the IDENT was found flipped: incoming bits are then flipped.
    pub is_flipped: bool,
}

impl View for WindowHandler {
    type V = WindowView;

    open spec fn view(&self) -> WindowView {
        WindowView {
            window: self.window@,
            window_flipped: self.window_flipped@,
            recording: self.recording@,
            currently_recording: self.currently_recording,
            bit_counter: self.bit_counter as int,
            ident: self.ident@,
            frame_len: self.frame_len,
            recording_len: self.recording_len as int,
            is_flipped: self.is_flipped,
        }
    }
}

impl WindowHandler {
    /// Creates a handler that looks for the identifier given in binary
    /// digits. The string must hold only `0` and `1`.
    pub fn new(ident_str_bin: &str) -> (r: WindowHandler)
        requires
            spec_is_bin(ident_str_bin@),
        ensures
            r.ident@ == spec_bin_to_u8(ident_str_bin@),
            r.window@ == Seq::new(ident_str_bin@.len() / 8, |i: int| 0u8),
            r.window_flipped@ == Seq::new(ident_str_bin@.len() / 8, |i: int| 0u8),
            r.recording@ == Seq::new(65537, |i: int| 0u8),
            r.frame_len == 0,
            r.bit_counter == 8,
            !r.currently_recording,
            r.recording_len == 1,
            !r.is_flipped,
    {
        proof {
            assert(vstd::string::is_ascii(ident_str_bin));
            vstd::string::is_ascii_spec_bytes(ident_str_bin);
            assert(ident_str_bin.spec_bytes().len() == ident_str_bin@.len());
        }
        let ident = bin_to_u8(ident_str_bin);
        let window_len = ident_str_bin.as_bytes().len() / 8;
        let mut out = WindowHandler {
            window: vec![0; window_len],
            window_flipped: vec![0; window_len],
            recording: vec![0; 65537],
            currently_recording: false,
            bit_counter: 0,
            recording_len: 0,
            frame_len: 0,
            ident,
            is_flipped: false,
        };
        out.reset();
        assert(out.window@ =~= Seq::new(ident_str_bin@.len() / 8, |i: int| 0u8));
        assert(out.window_flipped@ =~= Seq::new(ident_str_bin@.len() / 8, |i: int| 0u8));
        assert(out.recording@ =~= Seq::new(65537, |i: int| 0u8));
        out
    }

    /// Shifts `bin` left by one bit as one big-endian number, carrying the
    /// top bit of each byte into the byte before and `bit` (its lowest bit)
    /// into the last byte.
    pub fn shift_and_carry(bin: &mut [u8], bit: u8)
        ensures
            final(bin)@ == spec_shift_in(old(bin)@, bit),
    {
        let ghost s = bin@;
        let mut carry = bit & 1;
        let mut i = bin.len();
        while i > 0
            invariant
                i <= s.len(),
                bin@.len() == s.len(),
                carry == (if i == s.len() { bit & 1 } else { (s[i as int] >> 7u8) & 1 }),
                forall|j: int| 0 <= j < i ==> #[trigger] bin@[j] == s[j],
                forall|j: int| i <= j < s.len() ==> #[trigger] bin@[j] == spec_shift_in(s, bit)[j],
            decreases i,
        {
            i -= 1;
            let x = bin[i];
            let new_carry_bit = (x >> 7u8) & 1;
            bin[i] = (x << 1u8) ^ carry;
            carry = new_carry_bit;
        }
        assert(bin@ =~= spec_shift_in(s, bit));
    }

    /// Takes in the received bit (the lowest bit of `bin[0]`): while looking
    /// for the identifier it is shifted into the windows; once recording it is
    /// added to the recording, flipped if the identifier came flipped.
    pub fn add(&mut self, bin: &[u8])
        requires
            bin@.len() >= 1,
            old(self).currently_recording ==> 1 <= old(self).recording_len <= old(self).recording@.len(),
            old(self).currently_recording ==> old(self).bit_counter >= 1,
            old(self).recording@.len() < usize::MAX,
        ensures
            final(self)@ == spec_add(old(self)@, bin@[0]),
    {
        if !self.currently_recording {
            WindowHandler::shift_and_carry(self.window.as_mut_slice(), bin[0]);
            WindowHandler::shift_and_carry(self.window_flipped.as_mut_slice(), !bin[0]);
            if bytes_equal(self.window.as_slice(), self.ident.as_slice()) {
                self.currently_recording = true;
            }
            // sometimes data comes in flipped, check for that case by having two data one flipped, the other not
            if bytes_equal(self.window_flipped.as_slice(), self.ident.as_slice()) {
                self.currently_recording = true;
                self.is_flipped = true;
            }
        } else {
            let i = self.recording_len - 1;
            let shifted = self.recording[i] << 1u8;
            self.recording.set(i, shifted);
            let b = bin[0];
            if self.is_flipped {
                self.recording.set(i, self.recording[i] ^ (!b & 1));
            } else {
                self.recording.set(i, self.recording[i] ^ (b & 1));
            }
            self.bit_counter -= 1;
            if self.bit_counter == 0 {
                if self.recording_len == 2 {
                    let hi = self.recording[0];
                    let lo = self.recording[1];
                    self.frame_len = ((hi as u16) << 8u16) | (lo as u16);
                    assert(((hi as u16) << 8u16) | (lo as u16) == (hi as int * 256 + lo as int) as u16) by (bit_vector);
                }
                self.bit_counter = 8;
                self.recording_len += 1;
            }
        }
        assert(self@ =~= spec_add(old(self)@, bin@[0]));
    }

    /// Goes back to looking for the identifier.
    pub fn reset(&mut self)
        ensures
            final(self).frame_len == 0,
            final(self).bit_counter == 8,
            !final(self).currently_recording,
            final(self).recording_len == 1,
            !final(self).is_flipped,
            final(self).window@ == old(self).window@,
            final(self).window_flipped@ == old(self).window_flipped@,
            final(self).recording@ == old(self).recording@,
            final(self).ident@ == old(self).ident@,
    {
        self.frame_len = 0;
        self.bit_counter = 8;
        self.currently_recording = false;
        self.recording_len = 1;
        self.is_flipped = false;
    }

    /// Whether a whole frame has been recorded: the length is known, no byte
    /// is half done and all `frame_len` data bytes are in (the recording
    /// holds the two length bytes, then `recording_len - 3` data bytes).
    pub open spec fn spec_frame_ready(&self) -> bool {
        &&& self.frame_len != 0
        &&& self.bit_counter == 8
        &&& self.recording_len >= 3
        &&& self.recording_len - 3 >= self.frame_len
    }

    /// Hands out the recorded data once a whole frame is in, and goes back to
    /// looking for the identifier.
    pub fn take_frame(&mut self) -> (r: Option<Vec<u8>>)
        requires
            old(self).spec_frame_ready() ==> 2 + old(self).frame_len <= old(self).recording@.len(),
        ensures
            old(self).spec_frame_ready() ==> {
                &&& r.is_some()
                &&& r.unwrap()@ == old(self).recording@.subrange(2, 2 + old(self).frame_len)
                &&& final(self).frame_len == 0
                &&& final(self).bit_counter == 8
                &&& !final(self).currently_recording
                &&& final(self).recording_len == 1
                &&& !final(self).is_flipped
                &&& final(self).window@ == old(self).window@
                &&& final(self).window_flipped@ == old(self).window_flipped@
                &&& final(self).recording@ == old(self).recording@
                &&& final(self).ident@ == old(self).ident@
            },
            !old(self).spec_frame_ready() ==> r.is_none() && *final(self) == *old(self),
    {
        if self.frame_len != 0 && self.bit_counter == 8 && self.recording_len >= 3
            && (self.recording_len - 3) >= self.frame_len as usize {
            let end = 2 + self.frame_len as usize;
            let frame = slice_to_vec(slice_subrange(self.recording.as_slice(), 2, end));
            self.reset();
            Some(frame)
        } else {
            None
        }
    }
}

/// Whether two byte slices hold the same bytes.
fn bytes_equal(a: &[u8], b: &[u8]) -> (r: bool)
    ensures
        r == (a@ == b@),
{
    if a.len() != b.len() {
        return false;
    }
    let mut i: usize = 0;
    while i < a.len()
        invariant
            a@.len() == b@.len(),
            i <= a@.len(),
            forall|j: int| 0 <= j < i ==> a@[j] == b@[j],
        decreases a@.len() - i,
    {
        if a[i] != b[i] {
            return false;
        }
        i += 1;
    }
    assert(a@ =~= b@);
    true
}

proof fn lemma_shift_byte_bits(x: u8, c: u8)
    by (bit_vector)
    requires
        c <= 1,
    ensures
        forall|j: u8| #![trigger spec_bit((x << 1u8) ^ c, j)] j < 7 ==> spec_bit((x << 1u8) ^ c, j) == spec_bit(x, (j + 1) as u8),
        spec_bit((x << 1u8) ^ c, 7) == (c == 1),
{
}

proof fn lemma_low_bits(y: u8)
    by (bit_vector)
    ensures
        y & 1 <= 1,
        (y >> 7u8) & 1 <= 1,
        ((y >> 7u8) & 1 == 1) == spec_bit(y, 0),
        !y & 1 <= 1,
        (!y & 1 == 1) == !(y & 1 == 1),
        y <= 1 ==> y & 1 == y,
{
}

/// The bits of `s` shifted in one place, with `bit` (its lowest bit) at the
/// end.
proof fn lemma_shift_in_bits(s: Seq<u8>, bit: u8)
    requires
        s.len() >= 1,
    ensures
        spec_bits(spec_shift_in(s, bit)) == spec_bits(s).drop_first().push(bit & 1 == 1),
{
    let t = spec_shift_in(s, bit);
    let n = s.len() as int;
    let l = spec_bits(t);
    let r = spec_bits(s).drop_first().push(bit & 1 == 1);
    lemma_low_bits(bit);
    assert forall|i: int| 0 <= i < 8 * n implies #[trigger] l[i] == r[i] by {
        let k = i / 8;
        let j = i % 8;
        assert(0 <= k < n);
        let c = if k == n - 1 { bit & 1 } else { (s[k + 1] >> 7u8) & 1 };
        if k < n - 1 {
            lemma_low_bits(s[k + 1]);
        }
        lemma_shift_byte_bits(s[k], c);
        assert(t[k] == (s[k] << 1u8) ^ c);
        if j < 7 {
            assert(l[i] == spec_bit(s[k], (j + 1) as u8));
            assert((i + 1) / 8 == k && (i + 1) % 8 == j + 1);
        } else {
            if k < n - 1 {
                assert((i + 1) / 8 == k + 1 && (i + 1) % 8 == 0);
            }
        }
    }
    assert(l =~= r);
}

/// The bits of a bit sequence inverted.
pub open spec fn spec_flip_bits(bs: Seq<bool>) -> Seq<bool> {
    Seq::new(bs.len(), |k: int| !bs[k])
}

/// A bit sequence as received values: 1 for a one, 0 for a zero.
pub open spec fn spec_bit_inputs(bs: Seq<bool>) -> Seq<u8> {
    Seq::new(bs.len(), |k: int| if bs[k] { 1u8 } else { 0u8 })
}

/// A window handler run over received values, one bit each.
pub open spec fn spec_add_all(v: WindowView, inputs: Seq<u8>) -> WindowView
    decreases inputs.len(),
{
    if inputs.len() == 0 {
        v
    } else {
        spec_add_all(spec_add(v, inputs[0]), inputs.drop_first())
    }
}

/// Running over one part of the input, then the rest, is running over all of
/// it.
proof fn lemma_add_all_split(v: WindowView, inputs: Seq<u8>, q: int)
    requires
        0 <= q <= inputs.len(),
    ensures
        spec_add_all(v, inputs) == spec_add_all(spec_add_all(v, inputs.take(q)), inputs.skip(q)),
    decreases q,
{
    if q == 0 {
        assert(inputs.take(0) =~= Seq::<u8>::empty());
        assert(inputs.skip(0) =~= inputs);
    } else {
        lemma_add_all_split(spec_add(v, inputs[0]), inputs.drop_first(), q - 1);
        assert(inputs.take(q)[0] == inputs[0]);
        assert(inputs.take(q).drop_first() =~= inputs.drop_first().take(q - 1));
        assert(inputs.drop_first().skip(q - 1) =~= inputs.skip(q));
    }
}

/// While listening, a bit moves both windows on: the plain one by the bit,
/// the flipped one by the bit inverted.
proof fn lemma_listen_step(v: WindowView, bit: bool)
    requires
        !v.currently_recording,
        v.window.len() >= 1,
        v.window_flipped.len() >= 1,
    ensures
        ({
            let r = spec_add(v, if bit { 1u8 } else { 0u8 });
            &&& spec_bits(r.window) == spec_window_after(spec_bits(v.window), seq![bit], 1)
            &&& spec_bits(r.window_flipped) == spec_window_after(spec_bits(v.window_flipped), seq![!bit], 1)
            &&& r.currently_recording == (r.window == v.ident || r.window_flipped == v.ident)
            &&& r.is_flipped == (v.is_flipped || r.window_flipped == v.ident)
            &&& r.recording == v.recording
            &&& r.bit_counter == v.bit_counter
            &&& r.recording_len == v.recording_len
            &&& r.frame_len == v.frame_len
            &&& r.ident == v.ident
            &&& r.window.len() == v.window.len()
            &&& r.window_flipped.len() == v.window_flipped.len()
        }),
{
    let b: u8 = if bit { 1u8 } else { 0u8 };
    lemma_low_bits(b);
    lemma_shift_in_bits(v.window, b);
    lemma_shift_in_bits(v.window_flipped, !b);
    assert(spec_window_after(spec_bits(v.window), seq![bit], 1) =~= spec_bits(v.window).drop_first().push(bit));
    assert(spec_window_after(spec_bits(v.window_flipped), seq![!bit], 1) =~= spec_bits(v.window_flipped).drop_first().push(!bit));
}

/// While no window holds the identifier, listening moves the windows on by
/// the bits received.
proof fn lemma_listen(v: WindowView, bs: Seq<bool>, q: int)
    requires
        !v.currently_recording,
        v.window.len() >= 1,
        v.window_flipped.len() >= 1,
        0 <= q <= bs.len(),
        forall|k: int|
            1 <= k <= q ==> #[trigger] spec_window_after(spec_bits(v.window), bs, k) != spec_bits(v.ident)
                && spec_window_after(spec_bits(v.window_flipped), spec_flip_bits(bs), k) != spec_bits(v.ident),
    ensures
        ({
            let r = spec_add_all(v, spec_bit_inputs(bs).take(q));
            &&& !r.currently_recording
            &&& spec_bits(r.window) == spec_window_after(spec_bits(v.window), bs, q)
            &&& spec_bits(r.window_flipped) == spec_window_after(spec_bits(v.window_flipped), spec_flip_bits(bs), q)
            &&& r.window.len() == v.window.len()
            &&& r.window_flipped.len() == v.window_flipped.len()
            &&& r.is_flipped == v.is_flipped
            &&& r.recording == v.recording
            &&& r.bit_counter == v.bit_counter
            &&& r.recording_len == v.recording_len
            &&& r.frame_len == v.frame_len
            &&& r.ident == v.ident
        }),
    decreases q,
{
    let ins = spec_bit_inputs(bs);
    if q == 0 {
        assert(ins.take(0) =~= Seq::<u8>::empty());
        assert(spec_window_after(spec_bits(v.window), bs, 0) =~= spec_bits(v.window));
        assert(spec_window_after(spec_bits(v.window_flipped), spec_flip_bits(bs), 0) =~= spec_bits(v.window_flipped));
    } else {
        let bit = bs[0];
        lemma_listen_step(v, bit);
        let v1 = spec_add(v, ins[0]);
        assert(ins[0] == if bit { 1u8 } else { 0u8 });
        assert(seq![bit] =~= bs.take(1));
        assert(seq![!bit] =~= spec_flip_bits(bs).take(1));
        assert(spec_window_after(spec_bits(v.window), seq![bit], 1) == spec_window_after(spec_bits(v.window), bs, 1));
        assert(spec_window_after(spec_bits(v.window_flipped), seq![!bit], 1) == spec_window_after(
            spec_bits(v.window_flipped),
            spec_flip_bits(bs),
            1,
        ));
        assert(v1.window != v.ident) by {
            assert(spec_bits(v1.window) != spec_bits(v.ident));
        }
        assert(v1.window_flipped != v.ident) by {
            assert(spec_bits(v1.window_flipped) != spec_bits(v.ident));
        }
        let bs1 = bs.drop_first();
        assert(bs.skip(1) =~= bs1);
        assert(spec_flip_bits(bs).skip(1) =~= spec_flip_bits(bs1));
        assert forall|k: int| 1 <= k <= q - 1 implies #[trigger] spec_window_after(spec_bits(v1.window), bs1, k)
            != spec_bits(v1.ident) && spec_window_after(spec_bits(v1.window_flipped), spec_flip_bits(bs1), k)
            != spec_bits(v1.ident) by {
            lemma_window_after_after(spec_bits(v.window), bs, 1, k);
            lemma_window_after_after(spec_bits(v.window_flipped), spec_flip_bits(bs), 1, k);
            assert(spec_window_after(spec_bits(v.window), bs, 1 + k) != spec_bits(v.ident));
        }
        lemma_listen(v1, bs1, q - 1);
        assert(spec_bit_inputs(bs1) =~= ins.drop_first());
        assert(ins.take(q).drop_first() =~= spec_bit_inputs(bs1).take(q - 1));
        assert(ins.take(q)[0] == ins[0]);
        lemma_window_after_after(spec_bits(v.window), bs, 1, q - 1);
        lemma_window_after_after(spec_bits(v.window_flipped), spec_flip_bits(bs), 1, q - 1);
    }
}

/// Running over one more value is one more step.
proof fn lemma_add_all_push(v: WindowView, inputs: Seq<u8>, x: u8)
    ensures
        spec_add_all(v, inputs.push(x)) == spec_add(spec_add_all(v, inputs), x),
    decreases inputs.len(),
{
    let ys = inputs.push(x);
    if inputs.len() == 0 {
        assert(ys.drop_first() =~= Seq::<u8>::empty());
        assert(ys[0] == x);
        assert(spec_add_all(spec_add(v, x), Seq::<u8>::empty()) == spec_add(v, x));
        assert(spec_add_all(v, ys) == spec_add_all(spec_add(v, ys[0]), ys.drop_first()));
        assert(spec_add_all(v, inputs) == v);
    } else {
        lemma_add_all_push(spec_add(v, inputs[0]), inputs.drop_first(), x);
        assert(ys.drop_first() =~= inputs.drop_first().push(x));
        assert(ys[0] == inputs[0]);
        assert(spec_add_all(v, ys) == spec_add_all(spec_add(v, ys[0]), ys.drop_first()));
        assert(spec_add_all(v, inputs) == spec_add_all(spec_add(v, inputs[0]), inputs.drop_first()));
    }
}

proof fn lemma_byte_shift_bits(x: u8, c: u8)
    requires
        c <= 1,
    ensures
        spec_bits(seq![(x << 1u8) ^ c]) == spec_bits(seq![x]).drop_first().push(c == 1),
{
    lemma_shift_byte_bits(x, c);
    let l = spec_bits(seq![(x << 1u8) ^ c]);
    let r = spec_bits(seq![x]).drop_first().push(c == 1);
    assert forall|i: int| 0 <= i < 8 implies #[trigger] l[i] == r[i] by {
        if i < 7 {
            assert(l[i] == spec_bit((x << 1u8) ^ c, i as u8));
            assert(r[i] == spec_bit(x, (i + 1) as u8));
        }
    }
    assert(l =~= r);
}

/// The values received for the bits of a byte: its bits, most significant
/// first, inverted when the identifier came flipped.
pub open spec fn spec_byte_inputs(x: u8, flipped: bool) -> Seq<u8> {
    let xb = spec_bits(seq![x]);
    spec_bit_inputs(if flipped { spec_flip_bits(xb) } else { xb })
}

/// While recording, the first `r` bits of a byte shift into the byte being
/// recorded.
proof fn lemma_record_bits(v: WindowView, x: u8, r: int)
    requires
        v.currently_recording,
        v.bit_counter == 8,
        1 <= v.recording_len <= v.recording.len(),
        0 <= r <= 7,
    ensures
        ({
            let i = v.recording_len - 1;
            let u = spec_add_all(v, spec_byte_inputs(x, v.is_flipped).take(r));
            &&& u.recording == v.recording.update(i, u.recording[i])
            &&& spec_bits(seq![u.recording[i]]) == spec_bits(seq![v.recording[i]]).skip(r) + spec_bits(seq![x]).take(r)
            &&& u.bit_counter == 8 - r
            &&& u == (WindowView { recording: u.recording, bit_counter: 8 - r, ..v })
        }),
    decreases r,
{
    let i = v.recording_len - 1;
    let ins = spec_byte_inputs(x, v.is_flipped);
    let xb = spec_bits(seq![x]);
    if r == 0 {
        assert(ins.take(0) =~= Seq::<u8>::empty());
        assert(v.recording.update(i, v.recording[i]) =~= v.recording);
        assert(spec_bits(seq![v.recording[i]]).skip(0) + xb.take(0) =~= spec_bits(seq![v.recording[i]]));
    } else {
        lemma_record_bits(v, x, r - 1);
        let u = spec_add_all(v, ins.take(r - 1));
        assert(ins.take(r) =~= ins.take(r - 1).push(ins[r - 1]));
        lemma_add_all_push(v, ins.take(r - 1), ins[r - 1]);
        let b = ins[r - 1];
        lemma_low_bits(b);
        let c = spec_in_bit(v.is_flipped, b);
        assert(c <= 1);
        assert((c == 1) == xb[r - 1]);
        lemma_byte_shift_bits(u.recording[i], c);
        let y = (u.recording[i] << 1u8) ^ c;
        assert(spec_bits(seq![y]) =~= spec_bits(seq![v.recording[i]]).skip(r) + xb.take(r));
        let w = spec_add(u, b);
        assert(w.recording == u.recording.update(i, y));
        assert(w.recording =~= v.recording.update(i, y));
    }
}

/// While recording, the eight bits of a byte record it and start the next
/// one; when it is the second byte, the first two give the frame length.
proof fn lemma_record_byte(v: WindowView, x: u8)
    requires
        v.currently_recording,
        v.bit_counter == 8,
        1 <= v.recording_len <= v.recording.len(),
    ensures
        spec_add_all(v, spec_byte_inputs(x, v.is_flipped)) == (WindowView {
            recording: v.recording.update(v.recording_len - 1, x),
            bit_counter: 8,
            recording_len: v.recording_len + 1,
            frame_len: if v.recording_len == 2 {
                (v.recording[0] as int * 256 + x as int) as u16
            } else {
                v.frame_len
            },
            ..v
        }),
{
    let i = v.recording_len - 1;
    let ins = spec_byte_inputs(x, v.is_flipped);
    let xb = spec_bits(seq![x]);
    lemma_record_bits(v, x, 7);
    let u = spec_add_all(v, ins.take(7));
    assert(ins =~= ins.take(7).push(ins[7]));
    lemma_add_all_push(v, ins.take(7), ins[7]);
    let b = ins[7];
    lemma_low_bits(b);
    let c = spec_in_bit(v.is_flipped, b);
    assert((c == 1) == xb[7]);
    lemma_byte_shift_bits(u.recording[i], c);
    let y = (u.recording[i] << 1u8) ^ c;
    assert(spec_bits(seq![y]) =~= xb);
    lemma_pack_bits(seq![y]);
    lemma_pack_bits(seq![x]);
    assert(seq![y] =~= seq![x]);
    let w = spec_add(u, b);
    assert(w.recording =~= v.recording.update(i, x));
    assert(w =~= (WindowView {
        recording: v.recording.update(v.recording_len - 1, x),
        bit_counter: 8,
        recording_len: v.recording_len + 1,
        frame_len: if v.recording_len == 2 {
            (v.recording[0] as int * 256 + x as int) as u16
        } else {
            v.frame_len
        },
        ..v
    }));
}

/// The values received for the bits of a byte sequence, inverted when the
/// identifier came flipped.
pub open spec fn spec_msg_inputs(msg: Seq<u8>, flipped: bool) -> Seq<u8> {
    let mb = spec_bits(msg);
    spec_bit_inputs(if flipped { spec_flip_bits(mb) } else { mb })
}

/// The values for the first `q + 1` bytes are those for the first `q`, then
/// those for byte `q`.
proof fn lemma_msg_inputs_step(msg: Seq<u8>, flipped: bool, q: int)
    requires
        0 <= q < msg.len(),
    ensures
        spec_msg_inputs(msg, flipped).take(8 * q + 8) == spec_msg_inputs(msg, flipped).take(8 * q)
            + spec_byte_inputs(msg[q], flipped),
{
    let ins = spec_msg_inputs(msg, flipped);
    let l = ins.take(8 * q + 8);
    let r = ins.take(8 * q) + spec_byte_inputs(msg[q], flipped);
    assert(8 * q + 8 <= 8 * msg.len());
    assert forall|i: int| 8 * q <= i < 8 * q + 8 implies #[trigger] l[i] == r[i] by {
        let j = i - 8 * q;
        assert(i / 8 == q && i % 8 == j) by (nonlinear_arith)
            requires
                j == i - 8 * q,
                0 <= j < 8,
        ;
        assert(j / 8 == 0 && j % 8 == j);
    }
    assert(l =~= r);
}

/// While recording from the first byte on, the bytes of `msg` fill the
/// recording one after the other; once the second is in, the first two give
/// the frame length.
proof fn lemma_record_msg(v: WindowView, msg: Seq<u8>, q: int)
    requires
        v.currently_recording,
        v.bit_counter == 8,
        v.recording_len == 1,
        0 <= q <= msg.len(),
        msg.len() <= v.recording.len(),
    ensures
        spec_add_all(v, spec_msg_inputs(msg, v.is_flipped).take(8 * q)) == (WindowView {
            recording: msg.take(q) + v.recording.skip(q),
            recording_len: 1 + q,
            frame_len: if q >= 2 { (msg[0] as int * 256 + msg[1] as int) as u16 } else { v.frame_len },
            ..v
        }),
    decreases q,
{
    let ins = spec_msg_inputs(msg, v.is_flipped);
    if q == 0 {
        assert(ins.take(0) =~= Seq::<u8>::empty());
        assert(msg.take(0) + v.recording.skip(0) =~= v.recording);
        assert(v =~= (WindowView { recording: v.recording, recording_len: 1, frame_len: v.frame_len, ..v }));
    } else {
        lemma_record_msg(v, msg, q - 1);
        let u = spec_add_all(v, ins.take(8 * (q - 1)));
        lemma_msg_inputs_step(msg, v.is_flipped, q - 1);
        let a = ins.take(8 * (q - 1));
        let b = spec_byte_inputs(msg[q - 1], v.is_flipped);
        lemma_add_all_split(v, a + b, a.len() as int);
        assert((a + b).take(a.len() as int) =~= a);
        assert((a + b).skip(a.len() as int) =~= b);
        assert(8 * (q - 1) + 8 == 8 * q);
        lemma_record_byte(u, msg[q - 1]);
        assert(u.recording.update(q - 1, msg[q - 1]) =~= msg.take(q) + v.recording.skip(q));
        if q == 2 {
            assert(u.recording[0] == msg[0]);
        }
    }
}

/// The window after at least as many bits as it holds is the last of those
/// bits.
proof fn lemma_window_after_full(w: Seq<bool>, bs: Seq<bool>, k: int)
    requires
        w.len() <= k <= bs.len(),
    ensures
        spec_window_after(w, bs, k) == bs.subrange(k - w.len(), k),
{
    assert(spec_window_after(w, bs, k) =~= bs.subrange(k - w.len(), k));
}

/// The bytes whose bits equal the identifier's bits are the identifier; and
/// whose bits are the identifier's inverted are not.
proof fn lemma_bits_match(x: Seq<u8>, ident: Seq<u8>)
    requires
        ident.len() >= 1,
        x.len() == ident.len(),
    ensures
        spec_bits(x) == spec_bits(ident) ==> x == ident,
        spec_bits(x) == spec_flip_bits(spec_bits(ident)) ==> x != ident,
{
    lemma_pack_bits(x);
    lemma_pack_bits(ident);
    if x == ident && spec_bits(x) == spec_flip_bits(spec_bits(ident)) {
        assert(spec_bits(x)[0] == !spec_bits(ident)[0]);
    }
}

/// The header that comes before a frame's data: its length as two bytes,
/// high byte first.
pub open spec fn spec_len_header(data: Seq<u8>) -> Seq<u8> {
    seq![(data.len() / 256) as u8, (data.len() % 256) as u8]
}

/// The bits that arrive for a frame: the identifier, then the header and the
/// data, all inverted when the frame comes flipped.
pub open spec fn spec_frame_bits(ident: Seq<u8>, data: Seq<u8>, flipped: bool) -> Seq<bool> {
    let b = spec_bits(ident) + spec_bits(spec_len_header(data) + data);
    if flipped {
        spec_flip_bits(b)
    } else {
        b
    }
}

/// A frame is recorded whole: a listening handler that receives some bits,
/// then a frame (its identifier, its length as two bytes and its data, all
/// inverted or all not), one bit per call, and sees neither window hold the
/// identifier before the frame's own identifier has come in, ends with the
/// frame ready to be taken: recording, flipped exactly when the frame came
/// flipped, the length known, and the data, corrected, where `take_frame`
/// hands it out.
pub proof fn lemma_window_records_frame(v: WindowView, pre: Seq<bool>, data: Seq<u8>, flipped: bool)
    requires
        !v.currently_recording,
        !v.is_flipped,
        v.bit_counter == 8,
        v.recording_len == 1,
        v.ident.len() >= 1,
        v.window.len() == v.ident.len(),
        v.window_flipped.len() == v.ident.len(),
        1 <= data.len() <= 65535,
        data.len() + 2 <= v.recording.len(),
        forall|k: int|
            1 <= k < pre.len() + 8 * v.ident.len() ==> #[trigger] spec_window_after(
                spec_bits(v.window),
                pre + spec_frame_bits(v.ident, data, flipped),
                k,
            ) != spec_bits(v.ident) && spec_window_after(
                spec_bits(v.window_flipped),
                spec_flip_bits(pre + spec_frame_bits(v.ident, data, flipped)),
                k,
            ) != spec_bits(v.ident),
    ensures
        ({
            let r = spec_add_all(v, spec_bit_inputs(pre + spec_frame_bits(v.ident, data, flipped)));
            &&& r.currently_recording
            &&& r.is_flipped == flipped
            &&& r.frame_len == data.len()
            &&& r.bit_counter == 8
            &&& r.recording_len == data.len() + 3
            &&& r.recording.len() == v.recording.len()
            &&& r.recording.subrange(2, 2 + r.frame_len) == data
            &&& r.ident == v.ident
        }),
{
    let n8: int = 8 * v.ident.len() as int;
    let id = spec_bits(v.ident);
    let msg = spec_len_header(data) + data;
    let m = spec_bits(msg);
    let body = spec_frame_bits(v.ident, data, flipped);
    let bs = pre + body;
    let fbs = spec_flip_bits(bs);
    let ins = spec_bit_inputs(bs);
    let kk: int = pre.len() + n8;
    assert(body.len() == n8 + m.len());
    assert(bs.len() >= kk);

    // listening up to the last bit of the identifier
    lemma_listen(v, bs, kk - 1);
    let u = spec_add_all(v, ins.take(kk - 1));
    let bit = bs[kk - 1];
    lemma_listen_step(u, bit);
    assert(ins[kk - 1] == if bit { 1u8 } else { 0u8 });
    let w = spec_add(u, ins[kk - 1]);

    // the windows after the identifier's last bit
    let xw = spec_bits(v.window);
    let xf = spec_bits(v.window_flipped);
    lemma_window_after_after(xw, bs, kk - 1, 1);
    lemma_window_after_after(xf, fbs, kk - 1, 1);
    assert(seq![bit].take(1) =~= bs.skip(kk - 1).take(1));
    assert(seq![!bit].take(1) =~= fbs.skip(kk - 1).take(1));
    assert(spec_bits(w.window) == spec_window_after(xw, bs, kk));
    assert(spec_bits(w.window_flipped) == spec_window_after(xf, fbs, kk));
    lemma_window_after_full(xw, bs, kk);
    lemma_window_after_full(xf, fbs, kk);
    assert(bs.subrange(pre.len() as int, kk) =~= if flipped { spec_flip_bits(id) } else { id });
    assert(fbs.subrange(pre.len() as int, kk) =~= if flipped { id } else { spec_flip_bits(id) });
    lemma_bits_match(w.window, v.ident);
    lemma_bits_match(w.window_flipped, v.ident);
    assert(w.currently_recording);
    assert(w.is_flipped == flipped);

    // the listening part and the recording part of the input
    lemma_add_all_split(v, ins, kk);
    assert(ins.take(kk) =~= ins.take(kk - 1).push(ins[kk - 1]));
    lemma_add_all_push(v, ins.take(kk - 1), ins[kk - 1]);
    assert(ins.skip(kk) =~= spec_msg_inputs(msg, flipped)) by {
        lemma_bits_concat(v.ident, msg);
        assert(bs.skip(kk) =~= if flipped { spec_flip_bits(m) } else { m });
    }

    // recording the header and the data
    lemma_record_msg(w, msg, msg.len() as int);
    assert(spec_msg_inputs(msg, flipped).take(8 * msg.len() as int) =~= spec_msg_inputs(msg, flipped));
    let r = spec_add_all(v, ins);
    assert(r.recording == msg + v.recording.skip(msg.len() as int)) by {
        assert(msg.take(msg.len() as int) =~= msg);
    }
    assert(r.recording.subrange(2, 2 + r.frame_len) =~= data);
    assert(msg[0] as int * 256 + msg[1] as int == data.len());
}

} // verus!
