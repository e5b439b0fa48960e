//! AX.25 link-layer frames.

pub mod frame;
pub mod wire;
