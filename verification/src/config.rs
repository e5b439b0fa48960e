//! Decoder configuration.

use vstd::prelude::*;

verus! {

/// Bit-error recovery after a failed check sequence.
#[derive(Debug, Clone, Copy, PartialEq, Eq, Structural)]
pub enum FixBits {
    /// No recovery.
    Off,
    /// Try inverting each single bit.
    Single,
    /// Try single bits, then pairs of adjacent bits.
    Double,
}

impl Default for FixBits {
    fn default() -> (r: Self)
        ensures
            r == FixBits::Single,
    {
        FixBits::Single
    }
}

/// Demodulator and decoder tuning.
#[derive(Debug, Clone, Copy, PartialEq, Eq, Structural)]
pub struct DecoderConfig {
    /// Mark tone frequency in Hz.
    pub mark_hz: u32,
    /// Space tone frequency in Hz.
    pub space_hz: u32,
    /// Bits per second.
    pub baud: u32,
    /// Number of parallel slicers, 1 to 16.
    pub slicers: usize,
    /// Lowest rung of the slicer ladder in dB of mark minus space, as the bit pattern
    /// of an IEEE 754 single-precision number.
    pub min_twist_db: u32,
    /// Highest rung of the slicer ladder, in the same form.
    pub max_twist_db: u32,
    /// Bit-error recovery.
    pub fix_bits: FixBits,
}

/// Default mark tone.
pub fn default_mark_hz() -> (r: u32)
    ensures
        r == 1200,
{
    1200
}

/// Default space tone.
pub fn default_space_hz() -> (r: u32)
    ensures
        r == 2200,
{
    2200
}

/// Default bit rate.
pub fn default_baud() -> (r: u32)
    ensures
        r == 1200,
{
    1200
}

/// Default number of slicers.
pub fn default_slicers() -> (r: usize)
    ensures
        r == 8,
{
    8
}

/// Default lowest rung: -12 dB.
pub fn default_min_twist_db() -> (r: u32)
    ensures
        r == 0xC140_0000,
{
    0xC140_0000
}

/// Default highest rung: +9 dB, which puts a rung of eight on exactly 0 dB.
pub fn default_max_twist_db() -> (r: u32)
    ensures
        r == 0x4110_0000,
{
    0x4110_0000
}

impl Default for DecoderConfig {
    fn default() -> (r: Self)
        ensures
            r == (DecoderConfig {
                mark_hz: 1200,
                space_hz: 2200,
                baud: 1200,
                slicers: 8,
                min_twist_db: 0xC140_0000,
                max_twist_db: 0x4110_0000,
                fix_bits: FixBits::Single,
            }),
    {
        DecoderConfig {
            mark_hz: default_mark_hz(),
            space_hz: default_space_hz(),
            baud: default_baud(),
            slicers: default_slicers(),
            min_twist_db: default_min_twist_db(),
            max_twist_db: default_max_twist_db(),
            fix_bits: FixBits::default(),
        }
    }
}

} // verus!
