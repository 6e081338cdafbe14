//! Radio settings that the link layer needs to know of.
use vstd::prelude::*;

verus! {

/// The modulations a radio can use.
#[derive(Debug, Clone, Copy, PartialEq, Eq, Structural)]
pub enum ModulationTypes {
    QPSK,
    BPSK,
    FSK,
    ASK,
}

} // verus!
