//! Bit helpers shared by the convolutional encoder and the Viterbi decoder.
//!
//! Every bit of a byte runs through its own encoder, so a "bit" is often
//! carried as a whole byte: zero or not zero, or zero or `0xFF`.
use vstd::prelude::*;

verus! {

/// `BIT_MASK[i]` selects bit `i` of a byte.
pub const BIT_MASK: [u8; 8] = [1, 2, 4, 8, 16, 32, 64, 128];

/// The mask of bit `i`.
pub open spec fn spec_bit_mask(i: int) -> u8 {
    if i == 0 { 1 }
    else if i == 1 { 2 }
    else if i == 2 { 4 }
    else if i == 3 { 8 }
    else if i == 4 { 16 }
    else if i == 5 { 32 }
    else if i == 6 { 64 }
    else { 128 }
}

/// 0 for a zero byte, 1 for any other byte.
pub open spec fn spec_squish(x: u8) -> u8 {
    if x == 0 { 0 } else { 1 }
}

/// 0 for a zero byte, `0xFF` for any other byte.
pub open spec fn spec_stretch(x: u8) -> u8 {
    if x == 0 { 0 } else { 0xFF }
}

/// 0 when `x` is zero, `y` otherwise.
pub open spec fn spec_map_to(x: u8, y: u8) -> u8 {
    if x == 0 { 0 } else { y }
}

/// The two-bit number whose low bit says whether `s0` is set and whose high
/// bit says whether `s1` is set.
pub open spec fn spec_combine(s0: u8, s1: u8) -> u8 {
    (spec_squish(s0) + 2 * spec_squish(s1)) as u8
}

/// The bit that an encoder state stands for: `bit` when the state's low bit
/// (the most recent input) is set, 0 otherwise.
pub open spec fn spec_state_to_bit(state: u8, bit: u8) -> u8 {
    if state % 2 == 0 { 0 } else { bit }
}

/// Squishes a byte to a single bit: 0 stays 0, anything else becomes 1.
pub fn squish(x: u8) -> (r: u8)
    ensures
        r == spec_squish(x),
{
    if x == 0 { 0 } else { 1 }
}

/// Stretches a byte to a full byte: 0 stays 0, anything else becomes `0xFF`.
pub fn stretch(x: u8) -> (r: u8)
    ensures
        r == spec_stretch(x),
{
    if x == 0 { 0 } else { 0xFF }
}

/// Maps `x` to 0 when it is zero and to `y` otherwise.
pub fn map_to(x: u8, y: u8) -> (r: u8)
    ensures
        r == spec_map_to(x, y),
{
    if x == 0 { 0 } else { y }
}

/// Combines two "bits" (any non-zero byte counts as set) into a bit pair:
/// `s0` is bit 0 and `s1` is bit 1 of the result.
pub fn combine(s0: u8, s1: u8) -> (r: u8)
    ensures
        r == spec_combine(s0, s1),
        r < 4,
{
    let a = squish(s0);
    let b = squish(s1);
    assert(a <= 1 && b <= 1 ==> a | (b << 1) == a + 2 * b) by (bit_vector);
    a | (b << 1)
}

/// Turns an encoder state into the bit it was reached with, placed at `bit`.
pub fn state_to_bit(state: u8, bit: u8) -> (r: u8)
    ensures
        r == spec_state_to_bit(state, bit),
{
    assert(state & 1 == state % 2) by (bit_vector);
    map_to(state & 1, bit)
}

/// The mask constant is bit `i` for each `i`.
pub proof fn lemma_bit_mask(i: int)
    requires
        0 <= i < 8,
    ensures
        BIT_MASK@[i] == spec_bit_mask(i),
        spec_bit_mask(i) == (1u8 << (i as u8)),
{
    assert(BIT_MASK@ =~= seq![1u8, 2, 4, 8, 16, 32, 64, 128]);
    assert(1u8 << 0u8 == 1 && 1u8 << 1u8 == 2 && 1u8 << 2u8 == 4 && 1u8 << 3u8 == 8 && 1u8 << 4u8 == 16
        && 1u8 << 5u8 == 32 && 1u8 << 6u8 == 64 && 1u8 << 7u8 == 128) by (bit_vector);
}

} // verus!
