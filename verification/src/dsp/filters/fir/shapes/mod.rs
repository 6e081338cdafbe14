//! The window shapes a filter can take. The shapes themselves are sampled
//! in floating point by the program around this library.
pub mod blackman;
pub mod flattop;
pub mod hann;
pub mod nuttall_family;

use vstd::prelude::*;

verus! {

/// The window shapes that can be used as a digital filter.
#[derive(Debug, Clone, Copy, PartialEq, Eq, Structural)]
pub enum WindowShapes {
    Rectangle,
    Triangle,
    Welch,
}

} // verus!
