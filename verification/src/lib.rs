//! Radio link layer: convolutional (Viterbi) coding, a triple-redundancy byte
//! code, framing and frame capture.
use vstd::prelude::*;

pub mod buf;
pub mod dsp;
pub mod frame;
pub mod pipeline;
pub mod radio_settings;
pub mod rx_handling;
pub mod tools;

verus! {

/// The frame identifier, in binary digits.
pub const IDENT: &'static str = "11110000111100001111000011110001";

/// The preamble sent ahead of each frame, in binary digits.
pub const AMBLE: &'static str = "10101010101010101010101010101010";

} // verus!
