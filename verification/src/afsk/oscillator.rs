//! Phase accumulators.

use vstd::prelude::*;

verus! {

/// `round(2^32 * freq / sample_rate)`, halves rounded up.
pub open spec fn phase_step(freq: u32, sample_rate: u32) -> int {
    (0x2_0000_0000 * freq + sample_rate) / (2 * sample_rate as int)
}

/// The low 32 bits of the phase advance per sample.
///
/// Without a sample rate there is no such advance: the result is the largest step, or
/// none for frequency zero.
pub fn step_for(freq: u32, sample_rate: u32) -> (r: u32)
    ensures
        sample_rate > 0 ==> r == phase_step(freq, sample_rate) % 0x1_0000_0000,
        sample_rate == 0 ==> r == if freq == 0 {
            0
        } else {
            u32::MAX
        },
{
    if sample_rate == 0 {
        return if freq == 0 {
            0
        } else {
            u32::MAX
        };
    }
    let num: u128 = 0x2_0000_0000u128 * (freq as u128) + sample_rate as u128;
    let q: u128 = num / (2 * sample_rate as u128);
    (q % 0x1_0000_0000u128) as u32
}

/// A free-running 32-bit phase accumulator; a full turn is 2^32.
#[derive(Debug, Clone, Copy)]
pub struct Oscillator {
    pub phase: u32,
    pub delta: u32,
}

/// Entry of a 256-entry table that covers a phase.
pub open spec fn entry(phase: int) -> int {
    phase / 0x100_0000
}

/// The same for a phase a quarter turn behind.
pub open spec fn quarter_behind(phase: int) -> int {
    (entry(phase) - 64) % 256
}

/// Index into a 256-entry cosine table for the cosine of a phase.
pub fn cos_index(phase: u32) -> (r: usize)
    ensures
        r == phase as int / 0x100_0000,
        r == entry(phase as int),
        r < 256,
{
    (phase / 0x100_0000) as usize
}

/// Index into a 256-entry cosine table for the sine of a phase: a quarter turn behind.
pub fn sin_index(phase: u32) -> (r: usize)
    ensures
        r == (phase as int / 0x100_0000 - 64) % 256,
        r == quarter_behind(phase as int),
        r < 256,
{
    ((phase / 0x100_0000 + 192) % 256) as usize
}

impl Oscillator {
    /// Phase after one more sample.
    pub open spec fn turned(self) -> int {
        (self.phase + self.delta) % 0x1_0000_0000
    }

    /// An oscillator for `freq` Hz at the given sample rate, at phase zero.
    pub fn new(freq: u32, sample_rate: u32) -> (r: Self)
        ensures
            r.phase == 0,
            sample_rate > 0 ==> r.delta == phase_step(freq, sample_rate) % 0x1_0000_0000,
            sample_rate == 0 ==> r.delta == if freq == 0 {
                0
            } else {
                u32::MAX
            },
    {
        Oscillator { phase: 0, delta: step_for(freq, sample_rate) }
    }

    /// Advance by one sample and return the new phase.
    pub fn advance(&mut self) -> (r: u32)
        ensures
            r == (old(self).phase + old(self).delta) % 0x1_0000_0000,
            final(self).phase == r,
            final(self).delta == old(self).delta,
            r == old(self).turned(),
    {
        let sum: u64 = self.phase as u64 + self.delta as u64;
        self.phase = (sum % 0x1_0000_0000) as u32;
        self.phase
    }
}

/// After as many samples as there are in a second, the phase has gone round `freq` times, to
/// within half a step of rounding per sample, halves rounded up.
pub proof fn law_step_is_nearest(freq: u32, sample_rate: u32)
    requires
        sample_rate > 0,
    ensures
        -(sample_rate as int) < 2 * (sample_rate * phase_step(freq, sample_rate) - 0x1_0000_0000
            * freq) <= sample_rate,
{
    let num = 0x2_0000_0000 * freq + sample_rate;
    let den = 2 * sample_rate as int;
    vstd::arithmetic::div_mod::lemma_fundamental_div_mod(num, den);
    let q = phase_step(freq, sample_rate);
    assert(den * q == 2 * (sample_rate * q)) by (nonlinear_arith)
        requires
            den == 2 * sample_rate,
    ;
}

/// An oscillator after `n` samples.
pub open spec fn turned_times(o: Oscillator, n: nat) -> Oscillator
    decreases n,
{
    if n == 0 {
        o
    } else {
        let before = turned_times(o, (n - 1) as nat);
        Oscillator { phase: before.turned() as u32, ..before }
    }
}

/// The phase advances evenly: after `n` samples by `n` steps, whole turns left out.
pub proof fn law_even_advance(o: Oscillator, n: nat)
    ensures
        turned_times(o, n).delta == o.delta,
        turned_times(o, n).phase == (o.phase + n * o.delta) % 0x1_0000_0000,
    decreases n,
{
    if n == 0 {
        assert(n * o.delta == 0) by (nonlinear_arith)
            requires
                n == 0,
        ;
    } else {
        let m = (n - 1) as nat;
        law_even_advance(o, m);
        assert(n * o.delta == m * o.delta + o.delta) by (nonlinear_arith)
            requires
                n == m + 1,
        ;
    }
}

/// The table covers a turn in equal parts, and the sine of a phase stands where the cosine of
/// the phase a quarter turn before it does.
pub proof fn law_table_entries(phase: u32)
    ensures
        0x100_0000 * entry(phase as int) <= phase < 0x100_0000 * (entry(phase as int) + 1),
        0 <= entry(phase as int) < 256,
        quarter_behind(phase as int) == entry((phase - 0x4000_0000) % 0x1_0000_0000),
{
}

} // verus!
