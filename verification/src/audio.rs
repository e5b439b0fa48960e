//! What an audio source reports along with its samples.

use vstd::prelude::*;

verus! {

/// Signal quality measured by the audio source, as IEEE 754 single-precision bit
/// patterns: the measurements pass through unchanged.
#[derive(Debug, Clone, Copy, PartialEq, Eq, Structural)]
pub struct SignalMetrics {
    /// Estimated in-channel signal-to-noise ratio in dB.
    pub snr_db: u32,
    /// Relative channel power in dBFS. Uncalibrated.
    pub rssi_dbfs: u32,
}

/// Audio levels at decode time, on a scale where a full-scale tone reads about 100.
#[derive(Debug, Clone, Copy, PartialEq, Eq, Structural)]
pub struct AudioLevel {
    /// Overall received level.
    pub rec: u8,
    /// Mark-tone envelope level.
    pub mark: u8,
    /// Space-tone envelope level.
    pub space: u8,
}

impl Default for AudioLevel {
    fn default() -> (r: Self)
        ensures
            r == (AudioLevel { rec: 0, mark: 0, space: 0 }),
    {
        AudioLevel { rec: 0, mark: 0, space: 0 }
    }
}

} // verus!
