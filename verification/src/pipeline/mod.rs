//! From demodulated bits to decoded packets.

pub mod delivery;
pub mod manager;
pub mod stream_decoder;
