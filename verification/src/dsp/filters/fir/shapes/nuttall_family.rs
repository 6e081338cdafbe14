//! The Nuttall family of windows, which share a four-coefficient form.
use vstd::prelude::*;

verus! {

/// The common base of the Nuttall family of window shapes.
#[derive(Debug, Clone, Copy, PartialEq, Eq, Structural)]
pub struct NuttallBase {}

} // verus!
