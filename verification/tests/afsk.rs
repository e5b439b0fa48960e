use aprs_stream::afsk::dpll::Dpll;
use aprs_stream::afsk::oscillator::{cos_index, sin_index, step_for, Oscillator};
use aprs_stream::afsk::slicer::SlicerBank;

fn cos_table() -> Vec<f32> {
    (0..256)
        .map(|j| (j as f32 * 2.0 * std::f32::consts::PI / 256.0).cos())
        .collect()
}

#[test]
fn oscillator_frequency_accuracy() {
    // At 24 kHz, a 1200 Hz oscillator completes one full cycle every 20 samples.
    let mut osc = Oscillator::new(1200, 24000);
    for _ in 0..20 {
        osc.advance();
    }
    // delta = round(2^32 / 20) = 214748365, and 20 of those wrap to 4.
    let phase_frac = osc.phase as f64 / f64::powi(2.0, 32);
    assert!(
        phase_frac < 1e-6,
        "phase residual after 1 cycle = {phase_frac:.2e}"
    );
    assert_eq!(osc.delta, 214_748_365);
    assert_eq!(osc.phase, 4);
}

#[test]
fn oscillator_iq_amplitude() {
    // cos² + sin² should stay near 1.0 for any phase.
    let table = cos_table();
    let mut osc = Oscillator::new(1200, 24000);
    for _ in 0..100 {
        osc.advance();
        let c = table[cos_index(osc.phase)];
        let s = table[sin_index(osc.phase)];
        let mag = c * c + s * s;
        assert!((mag - 1.0).abs() < 0.01, "IQ magnitude = {mag}");
    }
}

#[test]
fn fsin256_quarter_period_offset() {
    let table = cos_table();
    // sin(0) = 0: index (0 - 64) & 0xff = 192, where the cosine is 0.
    let s = table[sin_index(0)];
    assert!(s.abs() < 1e-6, "fsin256(0) = {s}");
    // A quarter turn: index 0, where the cosine is 1.
    let p: u32 = 64u32 << 24;
    let s = table[sin_index(p)];
    assert!((s - 1.0).abs() < 1e-6, "fsin256(π/2) = {s}");
    assert_eq!(sin_index(0), 192);
    assert_eq!(cos_index(p), 64);
}

#[test]
fn steps_match_double_precision_rounding() {
    for &rate in &[8_000u32, 22_050, 24_000, 44_100, 48_000, 96_000, 192_000] {
        for &freq in &[300u32, 1_200, 1_800, 2_200, 9_600] {
            let expected =
                ((f64::powi(2.0, 32) * freq as f64 / rate as f64).round() as u64) as u32;
            assert_eq!(step_for(freq, rate), expected);
        }
    }
    assert_eq!(step_for(1200, 0), u32::MAX);
    assert_eq!(step_for(0, 0), 0);
    // A step beyond a full turn keeps its low 32 bits.
    assert_eq!(step_for(3, 2), 0x8000_0000);
}

#[test]
fn step_advances_and_wraps() {
    // At 1200 baud / 24000 Hz: step = round(2^32 / 20) = 214748365
    // After 20 steps the accumulator wraps once → one bit sampled.
    let mut dpll = Dpll::new(1200, 24000, 0);
    let mut bits = 0usize;
    for _ in 0..20 {
        if dpll.step(true).is_some() {
            bits += 1;
        }
    }
    assert_eq!(bits, 1, "expected exactly 1 bit overflow in 20 samples");
}

#[test]
fn transitions_nudge_phase() {
    // A demod transition should reduce |data_clock_pll| (nudge toward 0).
    let mut dpll = Dpll::new(1200, 24000, 0);
    dpll.data_clock_pll = 0x4000_0000; // large positive, far from sample point
    dpll.prev_demod_data = false;
    // Transition: prev=false, new=true
    dpll.step(true);
    assert!(dpll.data_clock_pll < 0x4000_0000 + dpll.step as i32);
}

#[test]
fn dcd_detects_lock_after_good_transitions() {
    // Feed consistent good transitions; the detector should eventually lock.
    let mut dpll = Dpll::new(1200, 24000, 0);
    for i in 0..40 {
        dpll.good_flag = true;
        dpll.dcd_each_symbol();
        let _ = i;
    }
    assert!(dpll.data_detect, "should be locked after 40 good symbols");
}

#[test]
fn dcd_needs_thirty_of_thirty_two_and_drops_at_six() {
    let mut dpll = Dpll::new(1200, 24000, 0);
    let mut locked_at = 0;
    for i in 1..=40 {
        dpll.good_flag = true;
        dpll.dcd_each_symbol();
        if dpll.data_detect && locked_at == 0 {
            locked_at = i;
        }
    }
    // The first symbol has only one good flag in its history, so it does not count.
    assert_eq!(locked_at, 31);
    let mut lost_at = 0;
    for i in 1..=40 {
        dpll.bad_flag = true;
        dpll.dcd_each_symbol();
        if !dpll.data_detect && lost_at == 0 {
            lost_at = i;
        }
    }
    // Three more symbols win before the bad history outweighs the good one.
    assert_eq!(lost_at, 29);
}

#[test]
fn nudge_is_single_precision_arithmetic() {
    let mut x: u32 = 0x1234_5678;
    for i in 0..200_000u32 {
        x ^= x << 13;
        x ^= x >> 17;
        x ^= x << 5;
        let phase = match i {
            0 => i32::MIN,
            1 => i32::MAX,
            2 => 0x0100_0001,
            3 => -0x0100_0003,
            _ => (x >> (i % 24)) as i32,
        };
        for &locked in &[false, true] {
            let mut dpll = Dpll::new(0, 24000, 0);
            assert_eq!(dpll.step, 0);
            dpll.data_clock_pll = phase;
            dpll.data_detect = locked;
            let sampled = dpll.step(true);
            let inertia: f32 = if locked { 0.74 } else { 0.50 };
            assert_eq!(dpll.data_clock_pll, (phase as f32 * inertia) as i32);
            assert!(sampled.is_none());
        }
    }
}

#[test]
fn transitions_are_good_near_phase_zero() {
    let mut dpll = Dpll::new(1200, 24000, 0);
    dpll.dcd_signal_transition(0x1FFF_FFFF);
    assert!(dpll.good_flag && !dpll.bad_flag);
    let mut dpll = Dpll::new(1200, 24000, 0);
    dpll.dcd_signal_transition(-0x2000_0000);
    assert!(!dpll.good_flag && dpll.bad_flag);
    let mut dpll = Dpll::new(1200, 24000, 0);
    dpll.dcd_signal_transition(0x2000_0000);
    assert!(!dpll.good_flag && dpll.bad_flag);
}

#[test]
fn slicer_bank_produces_bits() {
    // Drive the bank with a strong mark signal; after 20 samples (one baud
    // period at 24kHz/1200baud) each slicer should have produced one bit.
    let mut bank = SlicerBank::new(8, 1200, 24000);
    let mut total_bits = 0usize;
    for _ in 0..20 {
        // m_amp >> s_amp → every slicer reads mark
        let bits = bank.process(&[true; 8]);
        total_bits += bits.len();
    }
    // Each of 8 slicers overflows once in 20 samples.
    assert_eq!(total_bits, 8, "expected 8 bits (one per slicer)");
}

#[test]
fn slicer_bits_come_in_slicer_order_with_their_reading() {
    let mut bank = SlicerBank::new(3, 1200, 24000);
    for d in bank.dplls.iter_mut() {
        d.data_clock_pll = 0x7FFF_FFFF;
        d.prev_demod_data = true;
    }
    bank.dplls[1].data_clock_pll = 0;
    let bits = bank.process(&[true, true, false]);
    let got: Vec<(bool, usize)> = bits.iter().map(|b| (b.bit, b.slice)).collect();
    assert_eq!(got, vec![(true, 0), (false, 2)]);
    // A slicer without a reading stays where it is.
    let before = bank.dplls[2].data_clock_pll;
    bank.process(&[true]);
    assert_eq!(bank.dplls[2].data_clock_pll, before);
}
