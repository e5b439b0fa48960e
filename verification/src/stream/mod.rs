//! The published stream: what a frame holds, and how to look at one.

pub mod codec;
pub mod consumer;
pub mod proto;
