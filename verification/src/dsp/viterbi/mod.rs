//! A rate 1/2, constraint length 3 convolutional code and its Viterbi
//! decoder. Each bit position of a byte is encoded and decoded on its own.
pub mod common;
pub mod decode;
pub mod encode;
pub mod prelude;
