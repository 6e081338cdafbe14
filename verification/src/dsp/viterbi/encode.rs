//! The convolutional encoder.
use vstd::prelude::*;
use crate::dsp::viterbi::common::{combine, spec_combine, spec_stretch, stretch};

verus! {

/// The internal state of several encoders side by side: each bit of `T` is an
/// encoder of its own. `.0` holds the last input, `.1` the input before it.
///
/// For each input chunk `x` the encoder emits the pair `(s1 ^ x, s0 ^ s1 ^ x)`
/// and then remembers `x`.
#[derive(Debug, Clone, Default, PartialEq, Eq)]
pub struct EncoderState<T>(pub T, pub T);

/// The input seen `j` places into `xs`, reaching back into the initial state
/// `st` for `j == -1` (the last input before `xs`) and `j == -2`.
pub open spec fn spec_back(st: EncoderState<u8>, xs: Seq<u8>, j: int) -> u8 {
    if j >= 0 {
        xs[j]
    } else if j == -1 {
        st.0
    } else {
        st.1
    }
}

/// The bytes an encoder in state `st` emits for the input `xs`: two per input
/// byte.
pub open spec fn spec_encode(st: EncoderState<u8>, xs: Seq<u8>) -> Seq<u8> {
    Seq::new(
        2 * xs.len(),
        |i: int|
            if i % 2 == 0 {
                spec_back(st, xs, i / 2 - 2) ^ xs[i / 2]
            } else {
                spec_back(st, xs, i / 2 - 1) ^ spec_back(st, xs, i / 2 - 2) ^ xs[i / 2]
            },
    )
}

/// The state of an encoder that started in `st` once it has taken `xs`.
pub open spec fn spec_state_after(st: EncoderState<u8>, xs: Seq<u8>) -> EncoderState<u8> {
    EncoderState(spec_back(st, xs, xs.len() - 1), spec_back(st, xs, xs.len() - 2))
}

/// The encoder state that the two-bit number `v` names: bit 0 is the last
/// input, bit 1 the one before.
pub open spec fn spec_state_from_u8(v: u8) -> EncoderState<u8> {
    EncoderState(spec_stretch(v & 1), spec_stretch(v & 2))
}

impl EncoderState<u8> {
    /// Inputs a chunk to the encoder, updating the state and returning the two
    /// chunks that should be transmitted.
    pub fn push(&mut self, chunk: u8) -> (r: (u8, u8))
        ensures
            r == (old(self).1 ^ chunk, old(self).0 ^ old(self).1 ^ chunk),
            *final(self) == EncoderState(chunk, old(self).0),
    {
        let ans = (self.1 ^ chunk, self.0 ^ self.1 ^ chunk);
        self.update(chunk);
        ans
    }

    /// Shifts `chunk` into the state.
    fn update(&mut self, chunk: u8)
        ensures
            *final(self) == EncoderState(chunk, old(self).0),
    {
        self.1 = self.0;
        self.0 = chunk;
    }

    /// Does the same as `push`, but combines the two emitted chunks into a bit
    /// pair (only meaningful when every bit of the state agrees).
    pub fn push_return_bitpair(&mut self, byte: u8) -> (r: u8)
        ensures
            r == spec_combine(old(self).1 ^ byte, old(self).0 ^ old(self).1 ^ byte),
            *final(self) == EncoderState(byte, old(self).0),
    {
        let (s0, s1) = self.push(byte);
        combine(s0, s1)
    }

    /// Encodes every byte of `arr` in turn and returns the emitted chunks, two
    /// per input byte.
    pub fn push_slice(&mut self, arr: &[u8]) -> (r: Vec<u8>)
        requires
            arr@.len() * 2 <= usize::MAX,
        ensures
            r@ == spec_encode(*old(self), arr@),
            *final(self) == spec_state_after(*old(self), arr@),
    {
        let ghost st = *self;
        let mut ans: Vec<u8> = Vec::with_capacity(arr.len() * 2);
        let mut i: usize = 0;
        while i < arr.len()
            invariant
                i <= arr@.len(),
                ans@ =~= spec_encode(st, arr@.take(i as int)),
                *self == spec_state_after(st, arr@.take(i as int)),
            decreases arr@.len() - i,
        {
            let pair = self.push(arr[i]);
            ans.push(pair.0);
            ans.push(pair.1);
            i += 1;
            assert forall|j: int| -2 <= j < i implies spec_back(st, arr@.take(i as int), j)
                == spec_back(st, arr@, j) by {}
            assert forall|j: int| -2 <= j < i - 1 implies spec_back(st, arr@.take(i - 1), j)
                == spec_back(st, arr@, j) by {}
        }
        assert(arr@.take(arr@.len() as int) =~= arr@);
        ans
    }
}

impl EncoderState<u8> {
    /// The encoder state named by a two-bit number: bit 0 is the last input
    /// and bit 1 the input before it. Only the four numbers below 4 name a
    /// state.
    pub fn from_state_number(value: u8) -> (r: Self)
        requires
            value < 4,
        ensures
            r == spec_state_from_u8(value),
    {
        EncoderState(stretch(value & 1), stretch(value & 2))
    }
}

/// The encoder state named by a two-bit number: bit 0 is the last input and
/// bit 1 the input before it. A conversion cannot refuse its input, so higher
/// bits are ignored here; the library itself converts through
/// `EncoderState::from_state_number`, which takes only numbers below 4.
impl From<u8> for EncoderState<u8> {
    fn from(value: u8) -> (r: Self) {
        EncoderState(stretch(value & 1), stretch(value & 2))
    }
}

impl vstd::std_specs::convert::FromSpecImpl<u8> for EncoderState<u8> {
    open spec fn obeys_from_spec() -> bool {
        true
    }

    open spec fn from_spec(v: u8) -> Self {
        spec_state_from_u8(v)
    }
}

/// The two-bit number naming an encoder state.
impl From<EncoderState<u8>> for u8 {
    fn from(value: EncoderState<u8>) -> (r: u8) {
        combine(value.0, value.1)
    }
}

impl vstd::std_specs::convert::FromSpecImpl<EncoderState<u8>> for u8 {
    open spec fn obeys_from_spec() -> bool {
        true
    }

    open spec fn from_spec(v: EncoderState<u8>) -> u8 {
        spec_combine(v.0, v.1)
    }
}

/// Naming a state by its two-bit number and numbering it again gives the
/// number back, for each of the four numbers.
pub proof fn lemma_state_number_round_trip(v: u8)
    requires
        v < 4,
    ensures
        spec_combine(spec_state_from_u8(v).0, spec_state_from_u8(v).1) == v,
{
    assert(v < 4 ==> ((v & 1 == 0) == (v % 2 == 0)) && ((v & 2 == 0) == (v / 2 == 0))) by (bit_vector);
}

/// Inputs seen through a concatenation are those of its parts: in the first
/// part from the start state, in the second from the state after the first.
proof fn lemma_back_concat(st: EncoderState<u8>, a: Seq<u8>, b: Seq<u8>, k: int)
    requires
        -2 <= k < b.len(),
    ensures
        spec_back(st, a + b, a.len() + k) == spec_back(spec_state_after(st, a), b, k),
        k < 0 ==> spec_back(st, a + b, k) == spec_back(st, a, k),
{
}

/// Encoding in pieces is encoding the whole: the encoding of `a` then `b`
/// is the encoding of `a` followed by that of `b` from the state `a` left,
/// and the state after both is the state after `b` from there.
pub proof fn lemma_encode_concat(st: EncoderState<u8>, a: Seq<u8>, b: Seq<u8>)
    ensures
        spec_encode(st, a + b) == spec_encode(st, a) + spec_encode(spec_state_after(st, a), b),
        spec_state_after(st, a + b) == spec_state_after(spec_state_after(st, a), b),
{
    let l = spec_encode(st, a + b);
    let r = spec_encode(st, a) + spec_encode(spec_state_after(st, a), b);
    let n = a.len() as int;
    assert forall|i: int| 0 <= i < l.len() implies #[trigger] l[i] == r[i] by {
        if i < 2 * n {
            assert(i / 2 < n);
            assert(spec_back(st, a + b, i / 2 - 2) == spec_back(st, a, i / 2 - 2));
            assert(spec_back(st, a + b, i / 2 - 1) == spec_back(st, a, i / 2 - 1));
        } else {
            let m = i - 2 * n;
            assert(i / 2 == n + m / 2 && i % 2 == m % 2) by (nonlinear_arith)
                requires
                    m == i - 2 * n,
                    m >= 0,
            ;
            lemma_back_concat(st, a, b, m / 2 - 2);
            lemma_back_concat(st, a, b, m / 2 - 1);
            assert((a + b)[i / 2] == b[m / 2]);
        }
    }
    assert(l =~= r);
    if b.len() >= 2 {
        lemma_back_concat(st, a, b, b.len() - 1);
        lemma_back_concat(st, a, b, b.len() - 2);
    } else if b.len() == 1 {
        lemma_back_concat(st, a, b, 0);
        lemma_back_concat(st, a, b, -1);
    } else {
        assert(a + b =~= a);
    }
}

} // verus!
