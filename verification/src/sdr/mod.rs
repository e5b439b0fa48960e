//! Direct reception with an RTL-SDR: everything around the sample arithmetic.

pub mod channelize;
pub mod device;
pub mod fm;
pub mod levels;
pub mod settings;
pub mod source;
