use aprs_stream::config::DecoderConfig;
use aprs_stream::sdr::channelize::{bin_shift, select_bins, Channelizer, Sizing};
use aprs_stream::sdr::device::{Gain, SdrConfig, AUTO_START_TENTHS, READ_BYTES};
use aprs_stream::sdr::fm::{FmDemodConfig, FmParams, PowerRule, Squelch};
use aprs_stream::sdr::levels::LevelStats;
use aprs_stream::sdr::settings::{env_bool, env_u32, parse_channels, parse_gain};
use aprs_stream::sdr::source::{HandOver, Reader, ReaderStep, SdrSourceConfig};

const FS: u32 = 1_200_000;

#[test]
fn sizing_matches_ka9q_identities() {
    let ch = Channelizer::new(FS, 0u8).sizing();
    assert_eq!(ch.l, 24_000);
    assert_eq!(ch.m1, 6_000);
    assert_eq!(ch.n, 30_000);
    assert_eq!(ch.ns, 600);
    assert_eq!(ch.olen, 480);
    assert_eq!(ch.d, 50);
}

#[test]
fn sizes_round_like_the_formulas() {
    for fs in (12_000u32..3_000_000).step_by(7_919) {
        let s = Sizing::new(fs);
        assert_eq!(s.l, (fs as f64 * 0.02).round() as usize);
        assert_eq!(s.d, (fs as f64 / 24_000.0).round() as usize);
        assert_eq!(s.n, s.l + s.l / 4);
        assert_eq!(s.ns, s.n / s.d);
        assert_eq!(s.olen, s.l / s.d);
    }
}

#[test]
fn channels_are_tuned_to_the_nearest_bin() {
    // 40 Hz per bin at this rate.
    assert_eq!(bin_shift(200_000, FS, 30_000), 5_000);
    assert_eq!(bin_shift(-200_000, FS, 30_000), -5_000);
    assert_eq!(bin_shift(19, FS, 30_000), 0);
    assert_eq!(bin_shift(20, FS, 30_000), 1);
    assert_eq!(bin_shift(-20, FS, 30_000), -1);
    assert_eq!(bin_shift(-19, FS, 30_000), 0);
    let mut ch = Channelizer::new(FS, 0u8);
    ch.add_channel(144_390, 200_000);
    ch.add_channel(144_800, -600);
    let got: Vec<(u32, i64)> = ch.channels().iter().map(|c| (c.ssrc, c.shift)).collect();
    assert_eq!(got, vec![(144_390, 5_000), (144_800, -15)]);
    assert_eq!(ch.olen(), 480);
}

#[test]
fn tuning_divides_in_double_precision() {
    // The middle between two bins, where the quotient falls just short of it.
    let mut ch = Channelizer::new(15_300, 0u8);
    ch.add_channel(1, 3_825);
    ch.add_channel(2, -3_825);
    ch.add_channel(3, 0);
    let got: Vec<i64> = ch.channels().iter().map(|c| c.shift).collect();
    assert_eq!(got, vec![95, -95, 0]);
    for fs in (12_000u32..=4_000_000_000).step_by(7_654_321).chain(12_000..12_400) {
        let n = Sizing::new(fs).n;
        let mut offsets: Vec<i64> = (-40..40).map(|i| i * (fs as i64 / 80) + i).collect();
        // Offsets round the middle between bins.
        offsets.extend((0..40).map(|i| (2 * i + 1) * fs as i64 / (2 * n as i64)));
        offsets.extend([u32::MAX as i64, -(u32::MAX as i64), 1, -1]);
        for offset in offsets {
            let hz_per_bin = fs as f64 / n as f64;
            let expected = (offset as f64 / hz_per_bin).round() as i64;
            assert_eq!(bin_shift(offset, fs, n), expected, "{offset} Hz at {fs}");
        }
    }
}

#[test]
fn one_block_per_channel_in_order() {
    let mut ch = Channelizer::new(48_000, 0u32);
    ch.add_channel(7, 0);
    ch.add_channel(5, 400);
    // 960 new samples per block, 1200 bins, 600 of them per channel.
    let input: Vec<u32> = (0..2_000).collect();
    let mut blocks = Vec::new();
    for piece in input.chunks(333) {
        // A spectrum that counts its bins stands for the transform.
        let spectra: Vec<Vec<u32>> = ch
            .process(piece)
            .iter()
            .map(|w| (0..w.len() as u32).collect())
            .collect();
        let slices = ch.slices(&spectra);
        assert_eq!(slices.len(), 2 * spectra.len());
        for (i, b) in slices.iter().enumerate() {
            let shift = ch.channels()[i % 2].shift;
            assert_eq!(b.samples, select_bins(&spectra[i / 2], shift, 600));
        }
        blocks.extend(ch.finish(&slices));
    }
    let tags: Vec<u32> = blocks.iter().map(|b| b.ssrc).collect();
    assert_eq!(tags, vec![7, 5, 7, 5]);
    assert!(blocks.iter().all(|b| b.samples.len() == 480));
    // The first 120 of 600 are dropped; 400 Hz are ten bins.
    assert_eq!(blocks[0].samples[0], 120);
    assert_eq!(blocks[1].samples[0], 130);
    assert_eq!(blocks[0].samples[479], 1_199);
    assert_eq!(blocks[1].samples[479], 9);
    assert!(ch.finish(&[]).is_empty());
}

#[test]
fn a_channel_takes_the_bins_round_its_centre() {
    let master: Vec<u32> = (0..10).collect();
    // Offsets 0, 1, -2, -1 from bin 3.
    assert_eq!(select_bins(&master, 3, 4), vec![3, 4, 1, 2]);
    // Wrapping at both ends.
    assert_eq!(select_bins(&master, 0, 4), vec![0, 1, 8, 9]);
    assert_eq!(select_bins(&master, -1, 4), vec![9, 0, 7, 8]);
    assert_eq!(select_bins(&master, 25, 2), vec![5, 4]);
    assert!(select_bins(&master, 3, 0).is_empty());
}

#[test]
fn windows_overlap_and_do_not_depend_on_chunking() {
    let n = 24_000 * 3 + 777;
    let input: Vec<u32> = (1..=n as u32).collect();
    let mut whole = Channelizer::new(FS, 0u32);
    let windows = whole.process(&input);
    assert_eq!(windows.len(), 3);
    assert!(windows[0][..6_000].iter().all(|&x| x == 0));
    assert_eq!(windows[0][6_000], 1);
    assert_eq!(windows[1][..6_000], windows[0][24_000..]);
    assert_eq!(windows[2].len(), 30_000);
    assert_eq!(windows[2][29_999], 72_000);

    let mut pieces = Channelizer::new(FS, 0u32);
    let mut got = Vec::new();
    for chunk in input.chunks(1_001) {
        got.extend(pieces.process(chunk));
    }
    assert_eq!(got, windows);
}

fn source(channels: &[u32], center: u32, rate: u32) -> SdrSourceConfig {
    SdrSourceConfig {
        device_index: 0,
        center_freq: center,
        sample_rate: rate,
        gain: Gain::Manual(400),
        freq_correction_ppm: 0,
        channels: channels.to_vec(),
        fm: FmParams::default(),
        decoder: DecoderConfig::default(),
    }
}

#[test]
fn validate_refuses_what_cannot_work() {
    assert_eq!(
        source(&[], 144_590_000, FS).validate(),
        Err("no channels configured".to_string())
    );
    assert_eq!(source(&[144_390_000], 144_590_000, FS).validate(), Ok(()));
    // Exactly half the sample rate away would alias already.
    assert!(source(&[145_190_000], 144_590_000, FS).validate().is_err());
    assert!(source(&[145_189_999], 144_590_000, FS).validate().is_ok());
    let e = source(&[144_390_000, 146_000_000], 144_590_000, FS)
        .validate()
        .unwrap_err();
    assert_eq!(
        e,
        "channel 146000000 Hz is 1410000 Hz from centre 144590000 Hz — beyond ±Fs/2 (600000 Hz); it would alias. Raise the sample rate or move the centre."
    );
    // The half rate is printed like a float without decimals.
    for rate in [1_000_001u32, 1_000_003] {
        let e = source(&[146_000_000], 144_000_000, rate)
            .validate()
            .unwrap_err();
        let half = format!("({:.0} Hz)", rate as f64 / 2.0);
        assert!(e.contains(&half), "{e} lacks {half}");
    }
}

#[test]
fn channels_past_four_fifths_of_the_band_are_listed() {
    let cfg = source(
        &[144_390_000, 145_070_001, 145_070_000, 144_000_000, 150_000_000, 144_000_000],
        144_590_000,
        FS,
    );
    assert_eq!(cfg.edge_channels(), vec![145_070_001, 144_000_000]);
}

#[test]
fn channel_plan_names_channels_by_kilohertz() {
    let plan = source(&[144_390_000, 144_800_999], 144_590_000, FS).channel_plan();
    let got: Vec<(u32, i64)> = plan.iter().map(|c| (c.ssrc, c.offset_hz)).collect();
    assert_eq!(got, vec![(144_390, -200_000), (144_800, 210_999)]);
}

#[test]
fn reader_reports_every_minute() {
    let mut r = Reader::new(5);
    assert!(!r.report_due(60_000_000_004));
    assert!(r.report_due(60_000_000_005));
    assert!(!r.report_due(60_000_000_006));
    assert!(!r.report_due(0));
    assert!(r.report_due(130_000_000_000));
}

#[test]
fn reader_warns_about_every_fiftieth_loss() {
    let mut r = Reader::new(0);
    assert_eq!(r.handed_over(HandOver::Sent), ReaderStep::Continue);
    let mut warned = Vec::new();
    for _ in 0..120 {
        if let ReaderStep::Warn(n) = r.handed_over(HandOver::Full) {
            warned.push(n);
        }
    }
    assert_eq!(warned, vec![1, 51, 101]);
    assert_eq!(r.handed_over(HandOver::Disconnected), ReaderStep::Stop);
    assert_eq!(r.dropped, 120);
}

#[test]
fn level_statistics_count_rails_and_find_the_peak() {
    let mut s = LevelStats::new();
    assert!(s.floor_block().is_none());
    s.accumulate(&[127, 128, 0, 200, 255]);
    assert_eq!(s.bytes, 5);
    // The odd byte at the end is not measured.
    assert_eq!(s.clipped, 1);
    assert_eq!(s.peak, Some(0));
    assert_eq!(s.block_power.len(), 1);
    assert_eq!(s.block_power[0].pairs, 2);
    assert_eq!(s.block_power[0].energy, 16 + 36 + 1274 * 1274 + 726 * 726);
    s.accumulate(&[255, 255]);
    assert_eq!(s.clipped, 3);
    assert_eq!(s.peak, Some(255));
    s.accumulate(&[7]);
    assert_eq!(s.bytes, 8);
    assert_eq!(s.block_power.len(), 2);
}

#[test]
fn noise_floor_is_the_tenth_percentile() {
    let mut s = LevelStats::new();
    // Twenty buffers of growing power in scrambled order, of different lengths.
    for i in 0..20u32 {
        let v = 128 + ((i * 7) % 20) as u8;
        let len = 2 * (1 + (i as usize % 3));
        s.accumulate(&vec![v; len]);
    }
    // Rank round(19 * 10 / 100) = 2.
    let b = s.floor_block().unwrap();
    let dev = (1280 + 20 - 1274) as u128;
    assert_eq!(b.energy, 2 * dev * dev * b.pairs as u128);
}

#[test]
fn squelch_warms_up_then_gates_with_hysteresis() {
    let mut s = Squelch::new(3);
    assert_eq!(s.next(), PowerRule::Collect);
    assert_eq!(s.next(), PowerRule::Collect);
    assert_eq!(s.next(), PowerRule::Seed(3));
    assert_eq!(s.next(), PowerRule::Track);
    assert!(!s.gate(false, false));
    assert!(s.gate(false, true));
    assert_eq!(s.next(), PowerRule::RiseOnly);
    // Between the thresholds it stays open.
    assert!(s.gate(false, false));
    assert!(!s.gate(true, false));
    assert_eq!(s.next(), PowerRule::Track);
    // Without a warm-up it tracks from the first sample.
    assert_eq!(Squelch::new(0).next(), PowerRule::Track);
    assert_eq!(Squelch::new(1).next(), PowerRule::Seed(1));
}

#[test]
fn fm_defaults_and_overrides() {
    let d = FmDemodConfig::new(24_000);
    assert_eq!(f32::from_bits(d.full_scale_dev_hz), 20_000.0);
    assert_eq!(f32::from_bits(d.squelch_open_db), 3.0);
    assert_eq!(f32::from_bits(d.squelch_close_db), 1.5);
    assert!(!d.deemphasis);
    assert_eq!(FmDemodConfig::with_params(24_000, &FmParams::default()), d);
    let p = FmParams {
        full_scale_dev_hz: Some(5_000.0f32.to_bits()),
        squelch_open_db: None,
        squelch_close_db: Some(0.5f32.to_bits()),
        deemphasis: true,
    };
    let c = FmDemodConfig::with_params(24_000, &p);
    assert_eq!(f32::from_bits(c.full_scale_dev_hz), 5_000.0);
    assert_eq!(f32::from_bits(c.squelch_open_db), 3.0);
    assert_eq!(f32::from_bits(c.squelch_close_db), 0.5);
    assert!(c.deemphasis);
}

#[test]
fn tuner_settings() {
    assert_eq!(Gain::Manual(123).tuner_gain(), Some(123));
    assert_eq!(Gain::Auto.tuner_gain(), Some(AUTO_START_TENTHS));
    assert_eq!(Gain::HardwareAgc.tuner_gain(), None);
    let mut cfg = SdrConfig {
        device_index: 0,
        center_freq: 144_590_000,
        sample_rate: FS,
        gain: Gain::Auto,
        freq_correction_ppm: 0,
    };
    assert_eq!(cfg.correction(), None);
    cfg.freq_correction_ppm = -3;
    assert_eq!(cfg.correction(), Some(-3));
    assert_eq!(READ_BYTES % 512, 0);
    assert_eq!(READ_BYTES, 94 * 512);
}

#[test]
fn number_settings_fall_back_to_the_default() {
    let cases = [
        "0", "7", "+7", "007", "4294967295", "4294967296", "99999999999999999999", "", "+", "-1",
        " 7", "7 ", "0x7", "++7", "٣",
    ];
    for s in cases {
        assert_eq!(env_u32(Some(s), 42), s.parse::<u32>().unwrap_or(42), "{s:?}");
    }
    assert_eq!(env_u32(None, 42), 42);
}

#[test]
fn gain_settings() {
    for s in ["400", "+5", "-5", "-2147483648", "2147483647", "2147483648", "-2147483649", "", "-"] {
        let (gain, invalid) = parse_gain(Some(s));
        match s.parse::<i32>() {
            Ok(n) => {
                assert_eq!(gain, Gain::Manual(n));
                assert!(!invalid);
            }
            Err(_) => {
                assert_eq!(gain, Gain::Manual(400));
                assert!(invalid);
            }
        }
    }
    assert_eq!(parse_gain(Some("HW-agc")), (Gain::HardwareAgc, false));
    assert_eq!(parse_gain(Some("auto")), (Gain::Manual(400), true));
    assert_eq!(parse_gain(None), (Gain::Manual(400), false));
}

#[test]
fn switch_settings() {
    for s in ["1", "on", "ON", "True", "yEs"] {
        assert!(env_bool(Some(s)), "{s}");
    }
    for s in ["0", "off", "", "on ", "yes!", "ye\u{17F}"] {
        assert!(!env_bool(Some(s)), "{s}");
    }
    assert!(!env_bool(None));
}

#[test]
fn channel_lists() {
    for list in [
        "144390000",
        "144390000,144800000",
        " 144390000 ,\t144800000\u{2003},x,, 5",
        "",
        ",",
        "1,2,",
        "a,b",
        "\u{3000}7\u{A0}",
    ] {
        let expected: Vec<u32> = list
            .split(',')
            .filter_map(|s| s.trim().parse().ok())
            .collect();
        assert_eq!(parse_channels(list), expected, "{list:?}");
    }
}

#[test]
fn trimming_knows_every_white_space_character() {
    for c in (0..=0x10FFFFu32).filter_map(char::from_u32) {
        if c.is_whitespace() {
            let list = format!("{c}9{c}");
            assert_eq!(parse_channels(&list), vec![9], "{c:?}");
        }
    }
    for c in ['\u{200B}', '\u{FEFF}', '\u{8}', '\u{E}', '\u{180E}', '\u{2060}'] {
        assert!(parse_channels(&format!("{c}9")).is_empty(), "{c:?}");
    }
}
