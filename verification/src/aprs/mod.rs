//! APRS on top of AX.25.

pub mod text;
