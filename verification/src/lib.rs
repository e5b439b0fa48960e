//! Decode core and frame schema of a disaggregated APRS pipeline.
//!
//! Demodulated bits go in at one end ([`hdlc`], [`ax25`], [`pipeline`]) and typed,
//! versioned frames come out at the other ([`stream`]). Everything in this crate is
//! integer and byte logic; sampling, filtering and sockets live outside it.

pub mod afsk;
pub mod aprs;
pub mod audio;
pub mod ax25;
pub mod bits;
pub mod config;
pub mod dsp;
pub mod error;
pub mod hdlc;
pub mod pipeline;
pub mod sdr;
pub mod stream;
pub mod streamd;
pub mod text;
