//! The decisions of the FM demodulator: when to mute, and how to track the noise floor.

use vstd::prelude::*;

verus! {

/// 20 kHz as a single-precision bit pattern.
pub const DEFAULT_FULL_SCALE_DEV_HZ: u32 = 0x469C_4000;

/// 3 dB as a single-precision bit pattern.
pub const DEFAULT_SQUELCH_OPEN_DB: u32 = 0x4040_0000;

/// 1.5 dB as a single-precision bit pattern.
pub const DEFAULT_SQUELCH_CLOSE_DB: u32 = 0x3FC0_0000;

/// Tuning of the FM stage. Each value that is given replaces a default. Numbers are
/// single-precision bit patterns.
#[derive(Debug, Clone, Copy, PartialEq, Eq, Structural)]
pub struct FmParams {
    pub full_scale_dev_hz: Option<u32>,
    pub squelch_open_db: Option<u32>,
    pub squelch_close_db: Option<u32>,
    pub deemphasis: bool,
}

impl Default for FmParams {
    fn default() -> (r: Self)
        ensures
            r == (FmParams {
                full_scale_dev_hz: None,
                squelch_open_db: None,
                squelch_close_db: None,
                deemphasis: false,
            }),
    {
        FmParams {
            full_scale_dev_hz: None,
            squelch_open_db: None,
            squelch_close_db: None,
            deemphasis: false,
        }
    }
}

/// Settings of one FM demodulator. Numbers are single-precision bit patterns.
#[derive(Debug, Clone, Copy, PartialEq, Eq, Structural)]
pub struct FmDemodConfig {
    pub sample_rate: u32,
    /// Deviation in Hz that maps to full-scale audio.
    pub full_scale_dev_hz: u32,
    /// Low-pass the audio.
    pub deemphasis: bool,
    /// The squelch opens above this signal-to-noise ratio in dB.
    pub squelch_open_db: u32,
    /// The squelch closes below this one.
    pub squelch_close_db: u32,
}

/// The defaults with the given values in their place.
pub open spec fn tuned(sample_rate: u32, params: FmParams) -> FmDemodConfig {
    FmDemodConfig {
        sample_rate,
        full_scale_dev_hz: match params.full_scale_dev_hz {
            Some(v) => v,
            None => DEFAULT_FULL_SCALE_DEV_HZ,
        },
        deemphasis: params.deemphasis,
        squelch_open_db: match params.squelch_open_db {
            Some(v) => v,
            None => DEFAULT_SQUELCH_OPEN_DB,
        },
        squelch_close_db: match params.squelch_close_db {
            Some(v) => v,
            None => DEFAULT_SQUELCH_CLOSE_DB,
        },
    }
}

impl FmDemodConfig {
    /// Defaults that run well without tuning.
    pub fn new(sample_rate: u32) -> (r: Self)
        ensures
            r == (FmDemodConfig {
                sample_rate,
                full_scale_dev_hz: DEFAULT_FULL_SCALE_DEV_HZ,
                deemphasis: false,
                squelch_open_db: DEFAULT_SQUELCH_OPEN_DB,
                squelch_close_db: DEFAULT_SQUELCH_CLOSE_DB,
            }),
    {
        FmDemodConfig {
            sample_rate,
            full_scale_dev_hz: DEFAULT_FULL_SCALE_DEV_HZ,
            deemphasis: false,
            squelch_open_db: DEFAULT_SQUELCH_OPEN_DB,
            squelch_close_db: DEFAULT_SQUELCH_CLOSE_DB,
        }
    }

    /// The defaults with the given values in their place.
    pub fn with_params(sample_rate: u32, params: &FmParams) -> (r: Self)
        ensures
            r == (FmDemodConfig {
                sample_rate,
                full_scale_dev_hz: match params.full_scale_dev_hz {
                    Some(v) => v,
                    None => DEFAULT_FULL_SCALE_DEV_HZ,
                },
                deemphasis: params.deemphasis,
                squelch_open_db: match params.squelch_open_db {
                    Some(v) => v,
                    None => DEFAULT_SQUELCH_OPEN_DB,
                },
                squelch_close_db: match params.squelch_close_db {
                    Some(v) => v,
                    None => DEFAULT_SQUELCH_CLOSE_DB,
                },
            }),
            r == tuned(sample_rate, *params),
    {
        let mut cfg = FmDemodConfig::new(sample_rate);
        match params.full_scale_dev_hz {
            Some(v) => {
                cfg.full_scale_dev_hz = v;
            },
            None => {},
        }
        match params.squelch_open_db {
            Some(v) => {
                cfg.squelch_open_db = v;
            },
            None => {},
        }
        match params.squelch_close_db {
            Some(v) => {
                cfg.squelch_close_db = v;
            },
            None => {},
        }
        cfg.deemphasis = params.deemphasis;
        cfg
    }
}

/// What to do with the power of a sample.
#[derive(Debug, Clone, Copy, PartialEq, Eq, Structural)]
pub enum PowerRule {
    /// Add it to the sum that the noise floor is seeded from, and mute the sample.
    Collect,
    /// As before; the sum is then complete, of so many samples.
    Seed(u32),
    /// Track the noise floor in both directions.
    Track,
    /// Let the noise floor rise but not fall.
    RiseOnly,
}

/// Squelch state of one channel.
///
/// The first samples only seed the noise floor. After that the squelch opens when the
/// signal rises far enough above the floor and closes when it falls near it; the two
/// thresholds differ. While it is open the floor must not follow the signal down.
#[derive(Debug, Clone, Copy, PartialEq, Eq, Structural)]
pub struct Squelch {
    /// Samples still to collect.
    pub warmup: u32,
    /// Samples collected.
    pub collected: u32,
    /// Audio passes.
    pub open: bool,
}

impl Squelch {
    /// What the next sample is for.
    pub open spec fn rule(self) -> PowerRule {
        if self.warmup > 1 {
            PowerRule::Collect
        } else if self.warmup == 1 {
            PowerRule::Seed((self.collected + 1) as u32)
        } else if self.open {
            PowerRule::RiseOnly
        } else {
            PowerRule::Track
        }
    }

    /// State after one more sample.
    pub open spec fn taken(self) -> Squelch {
        if self.warmup > 0 {
            Squelch {
                warmup: (self.warmup - 1) as u32,
                collected: (self.collected + 1) as u32,
                open: self.open,
            }
        } else {
            self
        }
    }

    /// State after the signal-to-noise ratio was judged.
    pub open spec fn gated(self, below_close: bool, above_open: bool) -> Squelch {
        Squelch {
            open: if self.open {
                !below_close
            } else {
                above_open
            },
            ..self
        }
    }

    /// The number of samples collected fits its counter.
    pub open spec fn wf(self) -> bool {
        self.warmup + self.collected <= u32::MAX
    }

    /// A closed squelch that seeds its noise floor from `warmup` samples.
    pub fn new(warmup: u32) -> (r: Self)
        ensures
            r == (Squelch { warmup, collected: 0, open: false }),
            r.wf(),
    {
        Squelch { warmup, collected: 0, open: false }
    }

    /// Take the next sample.
    pub fn next(&mut self) -> (r: PowerRule)
        requires
            old(self).wf(),
        ensures
            r == old(self).rule(),
            *final(self) == if old(self).warmup > 0 {
                Squelch {
                    warmup: (old(self).warmup - 1) as u32,
                    collected: (old(self).collected + 1) as u32,
                    open: old(self).open,
                }
            } else {
                *old(self)
            },
            *final(self) == old(self).taken(),
            final(self).wf(),
    {
        if self.warmup > 0 {
            self.collected = self.collected + 1;
            self.warmup = self.warmup - 1;
            if self.warmup == 0 {
                PowerRule::Seed(self.collected)
            } else {
                PowerRule::Collect
            }
        } else if self.open {
            PowerRule::RiseOnly
        } else {
            PowerRule::Track
        }
    }

    /// Judge the signal-to-noise ratio after a sample: below the closing threshold,
    /// above the opening one. Returns whether audio passes.
    pub fn gate(&mut self, below_close: bool, above_open: bool) -> (r: bool)
        ensures
            final(self).open == if old(self).open {
                !below_close
            } else {
                above_open
            },
            final(self).warmup == old(self).warmup,
            final(self).collected == old(self).collected,
            r == final(self).open,
            *final(self) == old(self).gated(below_close, above_open),
    {
        if self.open {
            if below_close {
                self.open = false;
            }
        } else if above_open {
            self.open = true;
        }
        self.open
    }
}

/// A squelch after `n` samples of warming up.
pub open spec fn warmed(s: Squelch, n: int) -> Squelch {
    Squelch { warmup: (s.warmup - n) as u32, collected: (s.collected + n) as u32, open: s.open }
}

/// Warming up takes exactly as many samples as were asked for, all but the last of them
/// only collected, and the noise floor is seeded once, from all of them.
pub proof fn law_warmup(warmup: u32, n: int)
    requires
        0 <= n <= warmup,
    ensures
        ({
            let s = warmed(Squelch { warmup, collected: 0, open: false }, n);
            &&& s.wf()
            &&& n + 1 < warmup ==> s.rule() == PowerRule::Collect
            &&& n + 1 == warmup ==> s.rule() == PowerRule::Seed(warmup)
            &&& n == warmup ==> s.rule() == PowerRule::Track
        }),
{
}

/// Once warm, the floor follows the signal both ways while the squelch is closed, and only up
/// while it is open; before that it is not tracked at all, open or not.
pub proof fn law_floor_tracking(s: Squelch)
    ensures
        s.rule() == PowerRule::RiseOnly <==> s.warmup == 0 && s.open,
        s.rule() == PowerRule::Track <==> s.warmup == 0 && !s.open,
        s.rule() == PowerRule::Collect <==> s.warmup >= 2,
        s.wf() && s.warmup == 1 ==> s.rule() is Seed && s.rule()->0 == s.collected + 1,
{
}

/// A squelch after `n` samples.
pub open spec fn taken_times(s: Squelch, n: nat) -> Squelch
    decreases n,
{
    if n == 0 {
        s
    } else {
        taken_times(s, (n - 1) as nat).taken()
    }
}

/// Each sample of the warming up is counted down on one side and up on the other; after them
/// the counts stand still. Taking samples never opens or closes the squelch.
pub proof fn law_samples_are_counted(s: Squelch, n: nat)
    requires
        s.wf(),
    ensures
        n <= s.warmup ==> taken_times(s, n) == warmed(s, n as int),
        n >= s.warmup ==> taken_times(s, n) == warmed(s, s.warmup as int),
        taken_times(s, n).warmup + taken_times(s, n).collected == s.warmup + s.collected,
        taken_times(s, n).open == s.open,
    decreases n,
{
    if n > 0 {
        law_samples_are_counted(s, (n - 1) as nat);
    }
}

/// The squelch has two thresholds: an open one closes exactly when the ratio falls below the
/// lower, a closed one opens exactly when it rises above the upper, and between the two it
/// stays as it is. Judging touches nothing else.
pub proof fn law_two_thresholds(s: Squelch, below_close: bool, above_open: bool)
    ensures
        ({
            let r = s.gated(below_close, above_open);
            &&& s.open ==> (r.open <==> !below_close)
            &&& !s.open ==> (r.open <==> above_open)
            &&& !below_close && !above_open ==> r == s
            &&& r.warmup == s.warmup
            &&& r.collected == s.collected
        }),
{
}

/// A value that is given is used as it is, whatever else is given, and one that is not is the
/// default: 20 kHz of deviation, 3 dB to open and 1.5 dB to close.
pub proof fn law_given_values_are_used(sample_rate: u32, params: FmParams)
    ensures
        ({
            let r = tuned(sample_rate, params);
            &&& r.sample_rate == sample_rate
            &&& r.deemphasis == params.deemphasis
            &&& params.full_scale_dev_hz is Some ==> params.full_scale_dev_hz == Some(
                r.full_scale_dev_hz,
            )
            &&& params.squelch_open_db is Some ==> params.squelch_open_db == Some(
                r.squelch_open_db,
            )
            &&& params.squelch_close_db is Some ==> params.squelch_close_db == Some(
                r.squelch_close_db,
            )
            &&& params.full_scale_dev_hz is None ==> is_single(r.full_scale_dev_hz, 20_000, 1)
            &&& params.squelch_open_db is None ==> is_single(r.squelch_open_db, 3, 1)
            &&& params.squelch_close_db is None ==> is_single(r.squelch_close_db, 3, 2)
        }),
{
    vstd::arithmetic::power2::lemma2_to64();
}

/// `bits` is the single-precision pattern of the number `a / b`, which is positive and below
/// two to the 23rd.
pub open spec fn is_single(bits: u32, a: int, b: int) -> bool {
    let exponent = bits as int / 0x80_0000;
    let fraction = bits as int % 0x80_0000;
    &&& 127 <= exponent < 150
    &&& (0x80_0000 + fraction) * b == a * vstd::arithmetic::power2::pow2((150 - exponent) as nat)
}

} // verus!
