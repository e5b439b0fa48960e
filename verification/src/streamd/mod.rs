//! The publishing service: its configuration, and the frames it makes of packets.

pub mod config;
pub mod frames;
