//! The Hann window.
use vstd::prelude::*;

verus! {

/// The Hann window shape.
#[derive(Debug, Clone, Copy, PartialEq, Eq, Structural)]
pub struct Hann {}

} // verus!
