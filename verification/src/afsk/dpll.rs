//! Bit clock recovery.

use vstd::prelude::*;

use crate::afsk::oscillator;

verus! {

/// A demodulated bit of one slicer.
#[derive(Debug, Clone, Copy)]
pub struct DemodBit {
    /// The bit value: true = mark, false = space.
    pub bit: bool,
    /// Index of the slicer that produced this bit.
    pub slice: usize,
}

/// So many good symbols out of 32 mean that a signal is there.
pub const DCD_THRESH_ON: u32 = 30;

/// So few mean that it is gone.
pub const DCD_THRESH_OFF: u32 = 6;

/// A transition this close to phase zero is good.
pub const DCD_GOOD_HALF_WIDTH: i32 = 0x2000_0000;

/// Significand of 0.74 in single precision, in units of 2^-24.
pub const LOCKED_INERTIA: u64 = 12_415_140;

/// Number of ones in the binary notation of `n`.
pub open spec fn ones(n: nat) -> nat
    decreases n,
{
    if n == 0 {
        0
    } else {
        n % 2 + ones(n / 2)
    }
}

/// The power of two in units of which `m` has at most 24 bits.
pub open spec fn unit(m: nat) -> nat
    decreases m,
{
    if m < 0x100_0000 {
        1
    } else {
        2 * unit(m / 2)
    }
}

/// `m` rounded to 24 significant bits, ties to even: what single precision makes of it.
pub open spec fn round24(m: nat) -> nat {
    let u = unit(m);
    let q = m / u;
    let r = m % u;
    if 2 * r > u || (2 * r == u && q % 2 == 1) {
        (q + 1) * u
    } else {
        q * u
    }
}

/// `m` times 0.74 or times one half in single precision, fraction dropped.
pub open spec fn damped(m: nat, locked: bool) -> nat {
    if locked {
        round24(round24(m) * LOCKED_INERTIA as nat) / 0x100_0000
    } else {
        round24(m) / 2
    }
}

/// A phase after a transition: drawn towards zero.
pub open spec fn nudged(phase: int, locked: bool) -> int {
    if phase >= 0 {
        damped(phase as nat, locked) as int
    } else {
        -(damped((-phase) as nat, locked) as int)
    }
}

/// The signed 32-bit number congruent to `n`.
pub open spec fn wrapped(n: int) -> int {
    (n + 0x8000_0000) % 0x1_0000_0000 - 0x8000_0000
}

/// Phase-locked loop for bit timing.
///
/// The accumulator advances every sample; a bit is sampled when it wraps from positive to
/// negative. Transitions of the demodulated signal belong at phase zero, so each of them
/// draws the phase towards zero, less firmly once a signal is detected.
#[derive(Debug, Clone, Copy)]
pub struct Dpll {
    /// Accumulator.
    pub data_clock_pll: i32,
    /// Accumulator before the last sample.
    pub prev_d_c_pll: i32,
    /// Added to the accumulator every sample.
    pub step: u32,
    /// Demodulated value of the last sample.
    pub prev_demod_data: bool,
    /// A good transition was seen in this symbol.
    pub good_flag: bool,
    /// A bad transition was seen in this symbol.
    pub bad_flag: bool,
    /// Good flags of the last eight symbols.
    pub good_hist: u8,
    /// Bad flags of the last eight symbols.
    pub bad_hist: u8,
    /// Verdicts on the last 32 symbols.
    pub score: u32,
    /// A signal is there.
    pub data_detect: bool,
    /// Slicer that this loop serves.
    pub slice: usize,
}

/// A history of `2^bits` states with one more flag in it.
pub open spec fn hist_push(hist: int, flag: bool, size: int) -> int {
    (2 * hist + if flag {
        1int
    } else {
        0
    }) % size
}

impl Dpll {
    /// Detector state after a symbol.
    pub open spec fn symbol(self) -> Dpll {
        let good = hist_push(self.good_hist as int, self.good_flag, 256);
        let bad = hist_push(self.bad_hist as int, self.bad_flag, 256);
        let win = ones(good as nat) - ones(bad as nat) >= 2;
        let score = hist_push(self.score as int, win, 0x1_0000_0000);
        Dpll {
            good_hist: good as u8,
            bad_hist: bad as u8,
            good_flag: false,
            bad_flag: false,
            score: score as u32,
            data_detect: if ones(score as nat) >= DCD_THRESH_ON {
                true
            } else if ones(score as nat) <= DCD_THRESH_OFF {
                false
            } else {
                self.data_detect
            },
            ..self
        }
    }

    /// Detector state after a transition at the given phase.
    pub open spec fn transition(self, phase: int) -> Dpll {
        if -DCD_GOOD_HALF_WIDTH < phase < DCD_GOOD_HALF_WIDTH {
            Dpll { good_flag: true, ..self }
        } else {
            Dpll { bad_flag: true, ..self }
        }
    }

    /// Phase after one more sample, before any nudge.
    pub open spec fn advanced(self) -> int {
        wrapped(self.data_clock_pll + self.step)
    }

    /// A bit is sampled with the next sample.
    pub open spec fn samples(self) -> bool {
        self.advanced() < 0 && self.data_clock_pll > 0
    }

    /// State after one more sample.
    pub open spec fn after(self, mark: bool) -> Dpll {
        let moved = Dpll {
            prev_d_c_pll: self.data_clock_pll,
            data_clock_pll: self.advanced() as i32,
            ..self
        };
        let sampled = if self.samples() {
            moved.symbol()
        } else {
            moved
        };
        if mark != self.prev_demod_data {
            Dpll {
                data_clock_pll: nudged(self.advanced(), sampled.data_detect) as i32,
                prev_demod_data: mark,
                ..sampled.transition(self.advanced())
            }
        } else {
            sampled
        }
    }

    /// A loop for the given bit and sample rates, at phase zero and with no signal.
    pub fn new(baud: u32, sample_rate: u32, slice: usize) -> (r: Self)
        ensures
            r.data_clock_pll == 0,
            r.prev_d_c_pll == 0,
            sample_rate > 0 ==> r.step == oscillator::phase_step(baud, sample_rate)
                % 0x1_0000_0000,
            sample_rate == 0 ==> r.step == if baud == 0 {
                0
            } else {
                u32::MAX
            },
            !r.prev_demod_data && !r.good_flag && !r.bad_flag && !r.data_detect,
            r.good_hist == 0 && r.bad_hist == 0 && r.score == 0,
            r.slice == slice,
    {
        Dpll {
            data_clock_pll: 0,
            prev_d_c_pll: 0,
            step: oscillator::step_for(baud, sample_rate),
            prev_demod_data: false,
            good_flag: false,
            bad_flag: false,
            good_hist: 0,
            bad_hist: 0,
            score: 0,
            data_detect: false,
            slice,
        }
    }

    /// Advance by one audio sample, demodulated as mark or space.
    ///
    /// Returns the bit that is sampled, if one is.
    pub fn step(&mut self, mark: bool) -> (r: Option<DemodBit>)
        ensures
            *final(self) == old(self).after(mark),
            r == if old(self).samples() {
                Some(DemodBit { bit: mark, slice: old(self).slice })
            } else {
                None
            },
    {
        let ghost start = *self;
        let moved: i64 = self.data_clock_pll as i64 + self.step as i64;
        let phase: i64 = if moved > 0x7FFF_FFFF {
            moved - 0x1_0000_0000
        } else {
            moved
        };
        assert(phase == self.advanced());
        self.prev_d_c_pll = self.data_clock_pll;
        self.data_clock_pll = phase as i32;
        let sampled: Option<DemodBit> = if self.data_clock_pll < 0 && self.prev_d_c_pll > 0 {
            self.dcd_each_symbol();
            Some(DemodBit { bit: mark, slice: self.slice })
        } else {
            None
        };
        if mark != self.prev_demod_data {
            let at: i32 = self.data_clock_pll;
            self.dcd_signal_transition(at);
            self.data_clock_pll = nudge(at, self.data_detect);
        }
        self.prev_demod_data = mark;
        sampled
    }

    /// Note a transition: good near phase zero, bad elsewhere.
    pub fn dcd_signal_transition(&mut self, dpll_phase: i32)
        ensures
            *final(self) == old(self).transition(dpll_phase as int),
    {
        if dpll_phase > -DCD_GOOD_HALF_WIDTH && dpll_phase < DCD_GOOD_HALF_WIDTH {
            self.good_flag = true;
        } else {
            self.bad_flag = true;
        }
    }

    /// Judge a symbol by the transitions seen in the last eight of them.
    pub fn dcd_each_symbol(&mut self)
        ensures
            *final(self) == old(self).symbol(),
    {
        let good: u16 = (self.good_hist as u16 * 2 + if self.good_flag {
            1u16
        } else {
            0u16
        }) % 256;
        let bad: u16 = (self.bad_hist as u16 * 2 + if self.bad_flag {
            1u16
        } else {
            0u16
        }) % 256;
        self.good_hist = good as u8;
        self.good_flag = false;
        self.bad_hist = bad as u8;
        self.bad_flag = false;
        let good_count: u32 = count_ones(good as u64);
        let bad_count: u32 = count_ones(bad as u64);
        let win: bool = good_count >= bad_count && good_count - bad_count >= 2;
        let score: u64 = (self.score as u64 * 2 + if win {
            1u64
        } else {
            0u64
        }) % 0x1_0000_0000;
        self.score = score as u32;
        let s: u32 = count_ones(score);
        if s >= DCD_THRESH_ON {
            self.data_detect = true;
        } else if s <= DCD_THRESH_OFF {
            self.data_detect = false;
        }
    }
}

/// Number of ones in a word.
fn count_ones(n: u64) -> (r: u32)
    ensures
        r == ones(n as nat),
{
    let mut r: u32 = 0;
    let mut left: u64 = n;
    proof {
        vstd::arithmetic::power2::lemma2_to64();
        lemma_ones_bound(n as nat, 64);
    }
    while left > 0
        invariant
            r + ones(left as nat) == ones(n as nat),
            ones(n as nat) <= 64,
        decreases left,
    {
        r = r + (left % 2) as u32;
        left = left / 2;
    }
    r
}

proof fn lemma_ones_bound(n: nat, k: nat)
    requires
        n < vstd::arithmetic::power2::pow2(k),
    ensures
        ones(n) <= k,
    decreases k,
{
    if k == 0 {
        vstd::arithmetic::power2::lemma2_to64();
    } else {
        vstd::arithmetic::power2::lemma_pow2_unfold(k);
        lemma_ones_bound(n / 2, (k - 1) as nat);
    }
}

proof fn lemma_unit(m: nat)
    ensures
        unit(m) >= 1,
        m / unit(m) < 0x100_0000,
        m < 0x100_0000 ==> unit(m) == 1,
        m >= 0x100_0000 ==> 0x80_0000 * unit(m) <= m,
    decreases m,
{
    if m >= 0x100_0000 {
        lemma_unit(m / 2);
        lemma_halving(m, unit(m / 2));
        vstd::arithmetic::div_mod::lemma_div_denominator(m as int, 2, unit(m / 2) as int);
    }
}

proof fn lemma_halving(m: nat, u: nat)
    requires
        u > 0,
    ensures
        m / (2 * u) == (m / u) / 2,
{
    vstd::arithmetic::div_mod::lemma_div_denominator(m as int, u as int, 2);
    assert(u * 2 == 2 * u);
}

/// Rounding moves a number by at most one part in 2^24, and small numbers not at all.
proof fn lemma_round24(m: nat)
    ensures
        m < 0x100_0000 ==> round24(m) == m,
        0x100_0000 * round24(m) <= 0x100_0001 * m,
{
    lemma_unit(m);
    let u = unit(m);
    let q = m / u;
    let r = m % u;
    vstd::arithmetic::div_mod::lemma_fundamental_div_mod(m as int, u as int);
    assert(m == q * u + r) by (nonlinear_arith)
        requires
            m == u * q + r,
    ;
    if 2 * r > u || (2 * r == u && q % 2 == 1) {
        assert((q + 1) * u == q * u + u) by (nonlinear_arith);
        if u == 1 {
            assert(r == 0);
        }
        assert(2 * round24(m) <= 2 * m + u);
        assert(0x80_0000 * u <= m);
    }
}

/// `m` rounded to 24 significant bits.
fn round_single(m: u64) -> (r: u64)
    requires
        m < 0x80_0000_0000_0000,
    ensures
        r == round24(m as nat),
{
    let mut u: u64 = 1;
    while m / u >= 0x100_0000
        invariant
            u >= 1,
            m < 0x80_0000_0000_0000,
            unit(m as nat) == u * unit((m / u) as nat),
            u <= 0x1_0000_0000,
        decreases m / u,
    {
        proof {
            lemma_halving(m as nat, u as nat);
            assert(0x100_0000 * u <= m) by (nonlinear_arith)
                requires
                    m / u >= 0x100_0000,
                    u > 0,
            ;
            let w = unit((m / u / 2) as nat);
            assert(u * (2 * w) == (2 * u) * w) by (nonlinear_arith);
        }
        u = 2 * u;
    }
    assert(u * 1 == u);
    let q: u64 = m / u;
    let r: u64 = m % u;
    proof {
        lemma_unit(m as nat);
        vstd::arithmetic::div_mod::lemma_fundamental_div_mod(m as int, u as int);
        assert((q + 1) * u == q * u + u && q * u <= m) by (nonlinear_arith)
            requires
                m == u * q + r,
                r >= 0,
        ;
    }
    if 2 * r > u || (2 * r == u && q % 2 == 1) {
        (q + 1) * u
    } else {
        q * u
    }
}

/// Draw a phase towards zero, as single-precision arithmetic does it.
fn nudge(phase: i32, locked: bool) -> (r: i32)
    ensures
        r == nudged(phase as int, locked),
{
    let m: u64 = if phase >= 0 {
        phase as u64
    } else {
        (-(phase as i64)) as u64
    };
    proof {
        lemma_round24(m as nat);
    }
    let single: u64 = round_single(m);
    let d: u64 = if locked {
        assert(single * LOCKED_INERTIA < 0x80_0000_0000_0000) by (nonlinear_arith)
            requires
                0x100_0000 * single <= 0x100_0001 * m,
                m <= 0x8000_0000,
                LOCKED_INERTIA == 12_415_140,
        ;
        proof {
            lemma_round24((single * LOCKED_INERTIA) as nat);
            lemma_damped(m as nat, locked);
        }
        round_single(single * LOCKED_INERTIA) / 0x100_0000
    } else {
        proof {
            lemma_damped(m as nat, locked);
        }
        single / 2
    };
    if phase >= 0 {
        d as i32
    } else {
        (-(d as i64)) as i32
    }
}

proof fn lemma_damped(m: nat, locked: bool)
    requires
        m <= 0x8000_0000,
    ensures
        damped(m, locked) <= m,
        m > 0 ==> damped(m, locked) < m,
        m <= 0x8000_0000 ==> damped(m, locked) < 0x8000_0000,
{
    lemma_round24(m);
    lemma_round24(round24(m) * LOCKED_INERTIA as nat);
    let s = round24(m);
    let p = s * 12_415_140;
    assert(round24(m) * LOCKED_INERTIA as nat == p);
    // 12_415_140 / 2^24 times (1 + 2^-24) squared is below one.
    assert(0x100_0000 * p <= 12_415_140 * (0x100_0001 * m));
    assert(0x100_0000 * round24(p) <= 0x100_0001 * p);
    if m > 0 {
        assert(round24(p) < 0x100_0000 * m);
    }
}

/// A transition draws the phase towards zero and never across it.
pub proof fn law_nudge_towards_zero(phase: int, locked: bool)
    requires
        -0x8000_0000 <= phase <= 0x7FFF_FFFF,
    ensures
        phase > 0 ==> 0 <= nudged(phase, locked) < phase,
        phase < 0 ==> phase < nudged(phase, locked) <= 0,
        phase == 0 ==> nudged(phase, locked) == 0,
{
    if phase >= 0 {
        lemma_damped(phase as nat, locked);
    } else {
        lemma_damped((-phase) as nat, locked);
    }
}

/// A loop after `n` samples without a transition.
pub open spec fn coasted(d: Dpll, n: nat) -> Dpll
    decreases n,
{
    if n == 0 {
        d
    } else {
        coasted(d, (n - 1) as nat).after(d.prev_demod_data)
    }
}

/// Without transitions the phase advances by the step every sample.
pub proof fn law_coasting(d: Dpll, n: nat)
    ensures
        coasted(d, n).data_clock_pll == wrapped(d.data_clock_pll + n * d.step),
        coasted(d, n).step == d.step,
        coasted(d, n).prev_demod_data == d.prev_demod_data,
    decreases n,
{
    if n > 0 {
        let before = coasted(d, (n - 1) as nat);
        law_coasting(d, (n - 1) as nat);
        assert(n * d.step == (n - 1) * d.step + d.step) by (nonlinear_arith)
            requires
                n > 0,
        ;
    } else {
        assert(n * d.step == 0) by (nonlinear_arith)
            requires
                n == 0,
        ;
    }
}

/// The detector switches on at the upper threshold, off at the lower, and holds in
/// between.
pub proof fn law_detector_hysteresis(d: Dpll)
    ensures
        ones(d.symbol().score as nat) >= DCD_THRESH_ON ==> d.symbol().data_detect,
        ones(d.symbol().score as nat) <= DCD_THRESH_OFF ==> !d.symbol().data_detect,
        DCD_THRESH_OFF < ones(d.symbol().score as nat) < DCD_THRESH_ON
            ==> d.symbol().data_detect == d.data_detect,
{
}

/// A bit is sampled exactly when the accumulator is positive and the step takes it past the
/// largest signed number, whatever the detector has found.
pub proof fn law_sampled_on_wrap(d: Dpll)
    ensures
        d.samples() <==> d.data_clock_pll > 0 && 0x8000_0000 <= d.data_clock_pll + d.step
            < 0x1_0000_0000,
{
}

/// Bits sampled during `n` samples without a transition.
pub open spec fn bits_coasted(d: Dpll, n: nat) -> nat
    decreases n,
{
    if n == 0 {
        0
    } else {
        bits_coasted(d, (n - 1) as nat) + if coasted(d, (n - 1) as nat).samples() {
            1nat
        } else {
            0
        }
    }
}

/// A loop yields one bit each time its accumulator goes once round, locked or not: over any
/// number of samples as many bits as the steps carry it past the middle of a turn.
pub proof fn law_one_bit_per_turn(d: Dpll, n: nat)
    requires
        0 < d.step < 0x8000_0000,
    ensures
        bits_coasted(d, n) == (d.data_clock_pll + 0x8000_0000 + n * d.step) / 0x1_0000_0000,
    decreases n,
{
    if n == 0 {
        assert(n * d.step == 0) by (nonlinear_arith)
            requires
                n == 0,
        ;
    } else {
        let m = (n - 1) as nat;
        law_one_bit_per_turn(d, m);
        law_coasting(d, m);
        law_sampled_on_wrap(coasted(d, m));
        assert(n * d.step == m * d.step + d.step) by (nonlinear_arith)
            requires
                n == m + 1,
        ;
    }
}

/// With a sample that brings no transition the phase advances by the step, round the turn;
/// the detector takes stock exactly when a bit is sampled. Nothing else changes.
pub proof fn law_steady_sample(d: Dpll)
    ensures
        ({
            let r = d.after(d.prev_demod_data);
            &&& r.data_clock_pll == d.data_clock_pll + d.step || r.data_clock_pll
                == d.data_clock_pll + d.step - 0x1_0000_0000
            &&& r.prev_d_c_pll == d.data_clock_pll
            &&& r.prev_demod_data == d.prev_demod_data
            &&& r.step == d.step
            &&& r.slice == d.slice
            &&& r.good_flag == (d.good_flag && !d.samples())
            &&& r.bad_flag == (d.bad_flag && !d.samples())
            &&& d.samples() ==> r.good_hist == d.symbol().good_hist && r.bad_hist
                == d.symbol().bad_hist && r.score == d.symbol().score && r.data_detect
                == d.symbol().data_detect
            &&& !d.samples() ==> r.good_hist == d.good_hist && r.bad_hist == d.bad_hist && r.score
                == d.score && r.data_detect == d.data_detect
        }),
{
}

/// A transition differs from a steady sample in three things: the value read, the flag for
/// where in the symbol it came, and the phase. It is good within an eighth of a turn of
/// phase zero and bad elsewhere. The phase keeps its sign, and its size shrinks to 74
/// hundredths once a signal is detected and to one half before, but for the fraction and
/// the rounding of single precision.
pub proof fn law_transition(d: Dpll)
    ensures
        ({
            let still = d.after(d.prev_demod_data);
            let r = d.after(!d.prev_demod_data);
            let p = still.data_clock_pll as int;
            let near = -0x2000_0000 < p < 0x2000_0000;
            let m = if p >= 0 {
                p
            } else {
                -p
            };
            let to = if p >= 0 {
                r.data_clock_pll as int
            } else {
                -r.data_clock_pll as int
            };
            &&& r.prev_demod_data == !d.prev_demod_data
            &&& r.good_flag == (still.good_flag || near)
            &&& r.bad_flag == (still.bad_flag || !near)
            &&& r.prev_d_c_pll == still.prev_d_c_pll
            &&& r.step == still.step
            &&& r.slice == still.slice
            &&& r.good_hist == still.good_hist
            &&& r.bad_hist == still.bad_hist
            &&& r.score == still.score
            &&& r.data_detect == still.data_detect
            &&& 0 <= to
            &&& r.data_detect ==> 100 * (0x10_0000 * to) <= 74 * (0x10_0001 * m) && 74 * (0xF_FFFF
                * m) < 100 * (0x10_0000 * (to + 1))
            &&& !r.data_detect ==> 2 * (0x10_0000 * to) <= 0x10_0001 * m && 0xF_FFFF * m < 2 * (
            0x10_0000 * (to + 1))
        }),
{
    let still = d.after(d.prev_demod_data);
    let p = still.data_clock_pll as int;
    let m: nat = if p >= 0 {
        p as nat
    } else {
        (-p) as nat
    };
    lemma_damped(m, still.data_detect);
    lemma_damping(m);
}

/// Rounding to single precision does not take off more than one part in 2^24 either.
proof fn lemma_round24_low(m: nat)
    ensures
        0xFF_FFFF * m <= 0x100_0000 * round24(m),
{
    lemma_unit(m);
    let u = unit(m);
    let q = m / u;
    let r = m % u;
    vstd::arithmetic::div_mod::lemma_fundamental_div_mod(m as int, u as int);
    assert(m == q * u + r) by (nonlinear_arith)
        requires
            m == u * q + r,
    ;
    assert((q + 1) * u == q * u + u) by (nonlinear_arith);
    if u == 1 {
        assert(r == 0);
    }
}

proof fn lemma_damping(m: nat)
    requires
        m <= 0x8000_0000,
    ensures
        ({
            let to = damped(m, true);
            100 * (0x10_0000 * to) <= 74 * (0x10_0001 * m) && 74 * (0xF_FFFF * m) < 100 * (0x10_0000
                * (to + 1))
        }),
        ({
            let to = damped(m, false);
            2 * (0x10_0000 * to) <= 0x10_0001 * m && 0xF_FFFF * m < 2 * (0x10_0000 * (to + 1))
        }),
{
    lemma_round24(m);
    lemma_round24_low(m);
    let s = round24(m);
    let p: nat = s * 12_415_140;
    assert(s * LOCKED_INERTIA as nat == p);
    lemma_round24(p);
    lemma_round24_low(p);
}

/// The number of ones counts binary digits: doubling a number keeps it, and an added one
/// counts one more.
pub proof fn law_ones(n: nat)
    ensures
        ones(0) == 0,
        ones(2 * n) == ones(n),
        ones(2 * n + 1) == ones(n) + 1,
{
    assert((2 * n) / 2 == n && (2 * n + 1) / 2 == n);
    if n == 0 {
        assert(ones(1) == 1) by {
            reveal_with_fuel(ones, 2);
        }
    }
}

/// Each symbol pushes the flags seen in it into the histories of the last eight, and the
/// verdict on these, good ahead of bad by two, into the score of the last 32. A signal is
/// there from thirty good verdicts on, until only six are left.
pub proof fn law_symbol(d: Dpll)
    ensures
        ({
            let r = d.symbol();
            let win = ones(r.good_hist as nat) >= ones(r.bad_hist as nat) + 2;
            &&& (r.good_hist as int - 2 * d.good_hist - if d.good_flag {
                1int
            } else {
                0
            }) % 256 == 0
            &&& (r.bad_hist as int - 2 * d.bad_hist - if d.bad_flag {
                1int
            } else {
                0
            }) % 256 == 0
            &&& (r.score as int - 2 * d.score - if win {
                1int
            } else {
                0
            }) % 0x1_0000_0000 == 0
            &&& r.data_detect == (ones(r.score as nat) >= 30 || ones(r.score as nat) > 6
                && d.data_detect)
            &&& !r.good_flag
            &&& !r.bad_flag
            &&& r.data_clock_pll == d.data_clock_pll
            &&& r.prev_d_c_pll == d.prev_d_c_pll
            &&& r.step == d.step
            &&& r.prev_demod_data == d.prev_demod_data
            &&& r.slice == d.slice
        }),
{
}

/// `q` times two to the `k` is the single-precision number nearest to `m`: `q` has 24 bits, no
/// fewer are used than there are, and of two that are as near `q` is even.
pub open spec fn nearest_single(m: nat, q: nat, k: nat) -> bool {
    let u = vstd::arithmetic::power2::pow2(k);
    &&& m < 0x100_0000 * u
    &&& k == 0 || m >= 0x80_0000 * u
    &&& -u <= 2 * (q * u - m) <= u
    &&& 2 * (q * u - m) == u || 2 * (m - q * u) == u ==> q % 2 == 0
}

/// Rounding gives the nearest single-precision number, and a nudge rounds as single precision
/// does: the phase, then its product with the number nearest to 0.74, or its half; what is
/// then left of a fraction is dropped.
pub proof fn law_rounded_to_nearest(m: nat)
    ensures
        exists|q: nat, k: nat| #[trigger]
            nearest_single(m, q, k) && round24(m) == q * vstd::arithmetic::power2::pow2(k),
        damped(m, true) == round24(12_415_140 * round24(m)) / 0x100_0000,
        -50 <= 74 * 0x100_0000 - 100 * 12_415_140 <= 50,
        damped(m, false) == round24(m) / 2,
{
    let k = lemma_unit_power(m);
    lemma_unit(m);
    let u = unit(m);
    let r = m % u;
    let q: nat = m / u;
    vstd::arithmetic::div_mod::lemma_fundamental_div_mod(m as int, u as int);
    assert(u * q == q * u && (q + 1) * u == q * u + u) by (nonlinear_arith);
    assert(m < 0x100_0000 * u) by (nonlinear_arith)
        requires
            m == u * q + r,
            r < u,
            q < 0x100_0000,
            u >= 1,
    ;
    if 2 * r > u || (2 * r == u && q % 2 == 1) {
        assert(nearest_single(m, q + 1, k));
    } else {
        assert(nearest_single(m, q, k));
    }
    assert(round24(m) * LOCKED_INERTIA as nat == 12_415_140 * round24(m));
}

proof fn lemma_unit_power(m: nat) -> (k: nat)
    ensures
        unit(m) == vstd::arithmetic::power2::pow2(k),
        m < 0x100_0000 <==> k == 0,
    decreases m,
{
    if m < 0x100_0000 {
        vstd::arithmetic::power2::lemma2_to64();
        0
    } else {
        let k = lemma_unit_power(m / 2);
        vstd::arithmetic::power2::lemma_pow2_unfold(k + 1);
        k + 1
    }
}

} // verus!
