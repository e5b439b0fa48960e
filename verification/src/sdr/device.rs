//! Tuner settings.

use vstd::prelude::*;

verus! {

/// Bytes per USB read: a multiple of 512, close to one channelizer block.
pub const READ_BYTES: usize = 48_128;

/// Gain, in tenths of a dB, that software gain control starts from.
pub const AUTO_START_TENTHS: i32 = 300;

/// Tuner gain mode.
#[derive(Debug, Clone, Copy, PartialEq, Eq, Structural)]
pub enum Gain {
    /// Fixed gain in tenths of a dB.
    Manual(i32),
    /// Software gain control.
    Auto,
    /// The tuner's own gain control.
    HardwareAgc,
}

/// What the tuner is told.
#[derive(Debug, Clone, Copy, PartialEq, Eq, Structural)]
pub struct SdrConfig {
    pub device_index: usize,
    /// Centre frequency in Hz.
    pub center_freq: u32,
    /// Complex sample rate in Hz.
    pub sample_rate: u32,
    /// Gain mode.
    pub gain: Gain,
    /// Frequency correction in ppm.
    pub freq_correction_ppm: i32,
}

impl Gain {
    /// The fixed gain to set.
    pub open spec fn fixed(self) -> Option<i32> {
        match self {
            Gain::Manual(g) => Some(g),
            Gain::Auto => Some(AUTO_START_TENTHS),
            Gain::HardwareAgc => None,
        }
    }

    /// The fixed gain to set, in tenths of a dB; `None` leaves the gain to the tuner.
    ///
    /// Software gain control starts from a fixed mid-scale gain and never engages the
    /// tuner's own.
    pub fn tuner_gain(self) -> (r: Option<i32>)
        ensures
            r == match self {
                Gain::Manual(g) => Some(g),
                Gain::Auto => Some(AUTO_START_TENTHS),
                Gain::HardwareAgc => None,
            },
            r == self.fixed(),
    {
        match self {
            Gain::Manual(g) => Some(g),
            Gain::Auto => Some(AUTO_START_TENTHS),
            Gain::HardwareAgc => None,
        }
    }
}

impl SdrConfig {
    /// The frequency correction to set; none if it is zero.
    pub fn correction(&self) -> (r: Option<i32>)
        ensures
            r == if self.freq_correction_ppm == 0 {
                None
            } else {
                Some(self.freq_correction_ppm)
            },
    {
        if self.freq_correction_ppm != 0 {
            Some(self.freq_correction_ppm)
        } else {
            None
        }
    }
}

/// The tuner's own control is engaged exactly where it was asked for; a fixed gain is set as
/// given, and software control starts from 30 dB.
pub proof fn law_own_control_only_if_asked(gain: Gain, tenths: i32)
    ensures
        gain.fixed() is None <==> gain == Gain::HardwareAgc,
        Gain::Manual(tenths).fixed() == Some(tenths),
        Gain::Auto.fixed() == Some(300i32),
{
}

} // verus!
