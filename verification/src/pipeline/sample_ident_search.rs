//! Decisions of the sample-wise identifier search: the samples themselves
//! are demodulated elsewhere; what comes back as bytes is judged here.
use vstd::prelude::*;
use crate::buf::{bytes_as_slice, bytes_copy_from_slice, bytes_get_u16_le, bytes_view};
use crate::dsp::wtf_ecc::{WtfECC, spec_ecc_decode};
use crate::pipeline::frame::{Frame, spec_frame_ident};
use crate::pipeline::ident_search::search_task::spec_le_u16;

verus! {

/// The states of the sample-wise search.
#[derive(Debug, Clone, Copy, PartialEq, Eq, Structural)]
pub enum State {
    /// Searching for the identifier.
    Ident,
    /// Reading the encoded length.
    Len,
    /// Reading the encoded payload.
    Data,
}

/// Whether demodulated bytes, decoded and read back to front, are the frame
/// identifier.
pub fn matches_ident(maybe_ident: &[u8]) -> (r: bool)
    requires
        maybe_ident@.len() < isize::MAX,
    ensures
        r == (spec_ecc_decode(0, maybe_ident@).reverse() == spec_frame_ident()),
{
    let mut decoder = WtfECC::new();
    let mut encoded = bytes_copy_from_slice(maybe_ident);
    let decoded = decoder.decode(&mut encoded);
    let out = bytes_as_slice(&decoded);
    let ident = Frame::IDENT;
    assert(ident@ =~= spec_frame_ident());
    let ghost rev = spec_ecc_decode(0, maybe_ident@).reverse();
    if out.len() != 4 {
        assert(rev.len() != ident@.len());
        return false;
    }
    let mut i: usize = 0;
    while i < 4
        invariant
            i <= 4,
            out@.len() == 4,
            out@ == spec_ecc_decode(0, maybe_ident@),
            rev == out@.reverse(),
            ident@ == spec_frame_ident(),
            forall|j: int| 0 <= j < i ==> rev[j] == ident@[j],
        decreases 4 - i,
    {
        if out[3 - i] != ident[i] {
            assert(rev[i as int] != ident@[i as int]);
            return false;
        }
        i += 1;
    }
    assert(rev =~= ident@);
    true
}

/// The payload length read from its demodulated encoding: the decoded
/// bytes, low byte first.
pub fn read_len(encoded_len: &[u8]) -> (r: usize)
    requires
        6 <= encoded_len@.len() < isize::MAX,
    ensures
        r == spec_le_u16(spec_ecc_decode(0, encoded_len@)),
{
    let mut decoder = WtfECC::new();
    let mut encoded = bytes_copy_from_slice(encoded_len);
    let mut decoded = decoder.decode(&mut encoded);
    bytes_get_u16_le(&mut decoded) as usize
}

/// The number of bytes the encoded length takes.
pub const LEN_LEN: usize = 6;

/// What the sample-wise search does with the samples it has.
#[derive(Debug, Clone, Copy, PartialEq, Eq, Structural)]
pub enum SampleAction {
    /// Slide over the samples one at a time, looking for the identifier.
    SearchIdent,
    /// Wait for more samples.
    Wait,
    /// Take this many samples and read the length from them.
    ReadLen(usize),
    /// Take all the samples and read the payload from them.
    ReadData,
}

/// The samples needed to read the encoded length: eight bits per byte.
pub open spec fn spec_len_samples(samples_per_bit: usize) -> int {
    samples_per_bit * 8 * LEN_LEN
}

/// The samples needed to read a payload of `len` bytes, each sent three
/// times.
pub open spec fn spec_data_samples(samples_per_bit: usize, len: usize) -> int {
    samples_per_bit * 8 * 3 * len
}

/// What to do in `state` with `available` samples buffered, `len` being the
/// payload length once it is known.
pub open spec fn spec_decide(state: State, samples_per_bit: usize, available: usize, len: usize) -> SampleAction {
    match state {
        State::Ident => SampleAction::SearchIdent,
        State::Len => if available >= spec_len_samples(samples_per_bit) {
            SampleAction::ReadLen(spec_len_samples(samples_per_bit) as usize)
        } else {
            SampleAction::Wait
        },
        State::Data => if available >= spec_data_samples(samples_per_bit, len) {
            SampleAction::ReadData
        } else {
            SampleAction::Wait
        },
    }
}

/// Decides what the search does next with the samples it has buffered.
pub fn decide(state: State, samples_per_bit: usize, available: usize, len: usize) -> (r: SampleAction)
    requires
        spec_len_samples(samples_per_bit) <= usize::MAX,
        state == State::Data ==> spec_data_samples(samples_per_bit, len) <= usize::MAX,
    ensures
        r == spec_decide(state, samples_per_bit, available, len),
{
    match state {
        State::Ident => SampleAction::SearchIdent,
        State::Len => {
            assert(samples_per_bit * 8 <= samples_per_bit * 8 * LEN_LEN) by (nonlinear_arith);
            let need = samples_per_bit * 8 * LEN_LEN;
            if available >= need {
                SampleAction::ReadLen(need)
            } else {
                SampleAction::Wait
            }
        },
        State::Data => {
            assert(samples_per_bit * 8 * 3 * len <= usize::MAX);
            assert(len == 0 || samples_per_bit * 8 * 3 <= samples_per_bit * 8 * 3 * len) by (nonlinear_arith);
            assert(len == 0 || samples_per_bit * 8 <= samples_per_bit * 8 * 3) by (nonlinear_arith);
            let need = if len == 0 { 0 } else { samples_per_bit * 8 * 3 * len };
            assert(len == 0 ==> samples_per_bit * 8 * 3 * len == 0) by (nonlinear_arith);
            if available >= need {
                SampleAction::ReadData
            } else {
                SampleAction::Wait
            }
        },
    }
}

/// The length is read from exactly `samples_per_bit * 8 * 6` samples (eight
/// bits for each of the six bytes of the encoded length), whatever else is
/// buffered, and only once that many are in; the payload is read only once
/// `samples_per_bit * 8 * 3 * len` samples are in; otherwise the search
/// waits, except while it looks for the identifier.
pub proof fn lemma_decide_takes_what_is_needed(state: State, samples_per_bit: usize, available: usize, len: usize)
    ensures
        spec_decide(state, samples_per_bit, available, len) matches SampleAction::ReadLen(n) ==> state == State::Len
            && n == samples_per_bit * 48 && available >= samples_per_bit * 48,
        spec_decide(state, samples_per_bit, available, len) is ReadData ==> state == State::Data
            && available >= samples_per_bit * 24 * len,
        spec_decide(state, samples_per_bit, available, len) is Wait ==> (state == State::Len && available
            < samples_per_bit * 48) || (state == State::Data && available < samples_per_bit * 24 * len),
        spec_decide(state, samples_per_bit, available, len) is SearchIdent <==> state == State::Ident,
        state == State::Len && available >= samples_per_bit * 48 && samples_per_bit * 48 <= usize::MAX
            ==> spec_decide(state, samples_per_bit, available, len) == SampleAction::ReadLen(
            (samples_per_bit * 48) as usize,
        ),
        state == State::Data && available >= samples_per_bit * 24 * len ==> spec_decide(
            state,
            samples_per_bit,
            available,
            len,
        ) == SampleAction::ReadData,
{
    assert(samples_per_bit * 8 * 3 * len == samples_per_bit * 24 * len) by (nonlinear_arith);
}

/// The state after the search acted: a found identifier moves on to the
/// length, a read length to the payload, a read payload back to searching.
pub fn state_after(state: State, action: SampleAction, found_ident: bool) -> (r: State)
    ensures
        r == (match action {
            SampleAction::SearchIdent => if found_ident { State::Len } else { state },
            SampleAction::Wait => state,
            SampleAction::ReadLen(_) => State::Data,
            SampleAction::ReadData => State::Ident,
        }),
{
    match action {
        SampleAction::SearchIdent => if found_ident { State::Len } else { state },
        SampleAction::Wait => state,
        SampleAction::ReadLen(_) => State::Data,
        SampleAction::ReadData => State::Ident,
    }
}

} // verus!
