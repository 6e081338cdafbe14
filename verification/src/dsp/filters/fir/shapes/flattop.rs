//! The flat top window, from five cosine coefficients.
use vstd::prelude::*;

verus! {

/// The flat top window shape.
#[derive(Debug, Clone, Copy, PartialEq, Eq, Structural)]
pub struct FlatTop {}

} // verus!
