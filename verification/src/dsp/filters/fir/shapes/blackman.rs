//! The flat top window, from three Blackman-style coefficients.
use vstd::prelude::*;

verus! {

/// The flat top window shape.
#[derive(Debug, Clone, Copy, PartialEq, Eq, Structural)]
pub struct FlatTop {}

} // verus!
