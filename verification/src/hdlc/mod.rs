//! HDLC link layer: flag-delimited framing and the frame check sequence.

pub mod fec;
pub mod framer;
pub mod line_code;
pub mod recovery;
