//! Digital filters.
pub mod fir;
