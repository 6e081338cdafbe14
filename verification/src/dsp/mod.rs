//! Digital signal processing of the link layer: the convolutional code, the
//! triple-redundancy byte code, and the shapes of the filter windows.
pub mod filters;
pub mod viterbi;
pub mod wtf_ecc;

use vstd::prelude::*;

verus! {

/// Windowing of sampled signals (the sampling itself is floating point).
#[derive(Debug, Clone, Copy, PartialEq, Eq, Structural)]
pub struct Windows {}

/// Filters of sampled signals (the sampling itself is floating point).
#[derive(Debug, Clone, Copy, PartialEq, Eq, Structural)]
pub struct Filters {}

} // verus!
