//! The encoder and the byte-wide decoder.
pub use super::decode::DecoderState;
pub use super::encode::EncoderState;
