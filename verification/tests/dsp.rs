use aprs_stream::dsp::filter::odd_taps;
use aprs_stream::dsp::fir::DelayLine;

fn convolve(dl: &DelayLine<f32>, kernel: &[f32]) -> f32 {
    let (newer, older) = dl.segments();
    assert_eq!(kernel.len(), newer.len() + older.len());
    let mut sum = 0.0f32;
    for (k, v) in kernel[..newer.len()].iter().zip(newer) {
        sum += k * v;
    }
    for (k, v) in kernel[newer.len()..].iter().zip(older) {
        sum += k * v;
    }
    sum
}

fn calc_taps(width_sym: f32, sample_rate: u32, baud: u32, max_taps: usize) -> usize {
    odd_taps(
        (width_sym * sample_rate as f32 / baud as f32) as usize,
        max_taps,
    )
}

#[test]
fn push_and_convolve_identity() {
    // Identity kernel: [1, 0, 0] — output should equal the most-recent sample.
    let mut dl = DelayLine::new(3, 0.0f32);
    let kernel = [1.0f32, 0.0, 0.0];
    dl.push(1.0);
    assert!((convolve(&dl, &kernel) - 1.0).abs() < 1e-7);
    dl.push(2.0);
    assert!((convolve(&dl, &kernel) - 2.0).abs() < 1e-7);
    dl.push(3.0);
    assert!((convolve(&dl, &kernel) - 3.0).abs() < 1e-7);
}

#[test]
fn delay_kernel_gives_previous_sample() {
    // Kernel [0, 1, 0] — output is sample from one step ago.
    let mut dl = DelayLine::new(3, 0.0f32);
    let kernel = [0.0f32, 1.0, 0.0];
    dl.push(1.0);
    dl.push(2.0);
    assert!((convolve(&dl, &kernel) - 1.0).abs() < 1e-7);
    dl.push(3.0);
    assert!((convolve(&dl, &kernel) - 2.0).abs() < 1e-7);
}

#[test]
fn averaging_filter_three_taps() {
    // Kernel [1/3, 1/3, 1/3] — running average over 3 samples.
    let mut dl = DelayLine::new(3, 0.0f32);
    let k = 1.0f32 / 3.0;
    let kernel = [k, k, k];
    dl.push(3.0);
    dl.push(6.0);
    dl.push(9.0);
    // avg(9, 6, 3) = 6.0
    assert!((convolve(&dl, &kernel) - 6.0).abs() < 1e-5);
}

#[test]
fn matches_naive_convolution() {
    // Compare ring-buffer result against a naive O(n) implementation.
    let taps = 31;
    let kernel: Vec<f32> = (0..taps).map(|i| i as f32 * 0.03).collect();
    let mut dl = DelayLine::new(taps, 0.0f32);

    let samples: Vec<f32> = (0..50).map(|i| (i as f32 * 0.1).sin()).collect();
    let mut reference = vec![0.0f32; taps]; // most-recent first

    for &s in &samples {
        // Shift reference buffer
        reference.copy_within(0..taps - 1, 1);
        reference[0] = s;

        dl.push(s);

        let naive: f32 = kernel.iter().zip(&reference).map(|(k, v)| k * v).sum();
        let fast = convolve(&dl, &kernel);
        assert!((fast - naive).abs() < 1e-5, "fast={fast} naive={naive}");
    }
}

#[test]
fn history_is_the_last_samples_newest_first() {
    let mut dl = DelayLine::new(4, 0u8);
    for b in 1..=9u8 {
        dl.push(b);
    }
    let (newer, older) = dl.segments();
    let all: Vec<u8> = newer.iter().chain(older).copied().collect();
    assert_eq!(all, vec![9, 8, 7, 6]);
}

#[test]
fn pre_filter_tap_count_at_24khz() {
    // Pre-filter of 383 * 1200/44100 ≈ 10.42 symbols.
    // At 24kHz/1200baud: 10.42 * 24000/1200 = 208.3 → 209 (odd)
    let width_sym = 383.0 * 1200.0 / 44100.0;
    let taps = calc_taps(width_sym, 24000, 1200, 480);
    assert!(taps % 2 == 1, "should be odd");
    assert!(taps < 480, "should fit in MAX_FILTER_SIZE");
    assert!(taps > 8, "should have enough taps");
    assert_eq!(taps, 209);
}

#[test]
fn tap_counts_are_odd_and_capped() {
    assert_eq!(odd_taps(0, 480), 1);
    assert_eq!(odd_taps(56, 480), 57);
    assert_eq!(odd_taps(57, 480), 57);
    assert_eq!(odd_taps(10_000, 480), 479);
    assert_eq!(odd_taps(10_000, 479), 479);
    assert_eq!(odd_taps(usize::MAX, 1), 1);
}
