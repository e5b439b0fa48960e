//! Sample buffers and filter sizing.

pub mod filter;
pub mod fir;
