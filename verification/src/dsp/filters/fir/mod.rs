//! Finite impulse response filters, shaped by a window.
pub mod shapes;
