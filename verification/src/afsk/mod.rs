//! Audio frequency-shift keying: the integer side of the demodulator.

pub mod dpll;
pub mod oscillator;
pub mod slicer;
