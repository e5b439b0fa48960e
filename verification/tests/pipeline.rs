use aprs_stream::afsk::dpll::DemodBit;
use aprs_stream::audio::{AudioLevel, SignalMetrics};
use aprs_stream::config::{DecoderConfig, FixBits};
use aprs_stream::hdlc::fec::crc16;
use aprs_stream::pipeline::manager::Router;
use aprs_stream::pipeline::stream_decoder::{BlockInfo, ModemPacket, StreamDecoder};

const SSRC: u32 = 144_390;
const SECOND: u64 = 1_000_000_000;

fn address(call: &str, ssid: u8, last: bool, h_bit: bool) -> [u8; 7] {
    let mut out = [b' ' << 1; 7];
    for (i, b) in call.bytes().enumerate() {
        out[i] = b << 1;
    }
    out[6] = 0x60 | (ssid << 1) | if h_bit { 0x80 } else { 0 } | if last { 1 } else { 0 };
    out
}

fn ui_frame(source: &str, path: &[(&str, u8, bool)], info: &[u8]) -> Vec<u8> {
    let mut f = Vec::new();
    f.extend_from_slice(&address("APRS", 0, false, false));
    f.extend_from_slice(&address(source, 0, path.is_empty(), false));
    for (i, &(call, ssid, heard)) in path.iter().enumerate() {
        f.extend_from_slice(&address(call, ssid, i + 1 == path.len(), heard));
    }
    f.extend_from_slice(&[0x03, 0xF0]);
    f.extend_from_slice(info);
    f
}

fn with_fcs(frame: &[u8]) -> Vec<u8> {
    let mut f = frame.to_vec();
    f.extend_from_slice(&crc16(frame).to_le_bytes());
    f
}

/// Line levels of flag, body, flag from level `from`.
fn transmission(frame: &[u8], from: bool) -> Vec<bool> {
    let mut logical: Vec<bool> = (0..8).map(|i| (0x7E >> i) & 1 == 1).collect();
    let mut ones = 0;
    for b in frame.iter().flat_map(|&b| (0..8).map(move |i| (b >> i) & 1 == 1)) {
        logical.push(b);
        ones = if b { ones + 1 } else { 0 };
        if ones == 5 {
            logical.push(false);
            ones = 0;
        }
    }
    logical.extend((0..8).map(|i| (0x7E >> i) & 1 == 1));
    let mut level = from;
    logical
        .into_iter()
        .map(|b| {
            if !b {
                level = !level;
            }
            level
        })
        .collect()
}

fn on(slices: &[usize], levels: &[bool]) -> Vec<DemodBit> {
    levels
        .iter()
        .flat_map(|&bit| slices.iter().map(move |&slice| DemodBit { bit, slice }))
        .collect()
}

fn at(now: u64) -> BlockInfo {
    BlockInfo {
        now,
        received_at: Some(1_719_580_800_123),
        audio_level: AudioLevel { rec: 52, mark: 24, space: 21 },
        signal: Some(SignalMetrics { snr_db: 12.5f32.to_bits(), rssi_dbfs: (-40.0f32).to_bits() }),
    }
}

fn decoder(slicers: usize, fix_bits: FixBits) -> StreamDecoder {
    let mut cfg = DecoderConfig::default();
    cfg.slicers = slicers;
    cfg.fix_bits = fix_bits;
    StreamDecoder::new(SSRC, &cfg)
}

/// The line is back at its level after each transmission, or the other one.
fn decode(d: &mut StreamDecoder, levels: &[bool], slices: &[usize], now: u64) -> Vec<ModemPacket> {
    d.process_block(&on(slices, levels), at(now))
}

#[test]
fn a_sent_frame_comes_out_as_one_packet() {
    let frame = ui_frame(
        "N0CALL",
        &[("KD9PDP", 3, true), ("WIDE2", 1, true), ("WIDE3", 2, false)],
        b">status\x01\xFF",
    );
    let mut d = decoder(8, FixBits::Single);
    let got = decode(&mut d, &transmission(&with_fcs(&frame), false), &[2, 5], 0);
    assert_eq!(got.len(), 1);
    let p = &got[0];
    assert_eq!(p.ssrc, SSRC);
    assert_eq!(p.raw_ax25, frame);
    assert_eq!(p.text, "N0CALL>APRS,KD9PDP-3*,WIDE2-1*,WIDE3-2:>status\u{FFFD}");
    assert_eq!(p.source, "N0CALL");
    assert_eq!(p.destination, "APRS");
    assert_eq!(p.via, vec!["KD9PDP-3", "WIDE2-1", "WIDE3-2"]);
    assert_eq!(p.via_heard, vec![true, true, false]);
    assert!(!p.heard_direct);
    assert_eq!(p.heard_from, "KD9PDP-3");
    assert_eq!(p.first_slice, 2);
    assert_eq!(p.slicer_hits, 2);
    assert_eq!(p.slicer_mask, 0b10_0100);
    assert_eq!(p.dti, Some(b'>'));
    assert_eq!(p.info, b">status\x01\xFF");
    assert_eq!(p.info_invalid_bytes, 2);
    assert_eq!(p.received_at, Some(1_719_580_800_123));
    assert_eq!(p.audio_level.rec, 52);
    assert_eq!(f32::from_bits(p.signal.unwrap().snr_db), 12.5);
}

#[test]
fn a_frame_is_not_repeated_within_three_seconds() {
    let frame = with_fcs(&ui_frame("N0CALL", &[], b"x"));
    let mut d = decoder(1, FixBits::Off);
    let mut level = false;
    let mut send = |d: &mut StreamDecoder, now: u64| {
        let line = transmission(&frame, level);
        level = *line.last().unwrap();
        decode(d, &line, &[0], now).len()
    };
    assert_eq!(send(&mut d, 10 * SECOND), 1);
    assert_eq!(send(&mut d, 10 * SECOND), 0);
    assert_eq!(send(&mut d, 13 * SECOND - 1), 0);
    // A suppressed frame does not extend the window.
    assert_eq!(send(&mut d, 13 * SECOND), 1);
    // A clock that runs backwards does not end it.
    assert_eq!(send(&mut d, 5 * SECOND), 0);
}

#[test]
fn blocks_in_between_do_not_bring_a_frame_back() {
    let mut d = decoder(1, FixBits::Off);
    let a = with_fcs(&ui_frame("AAAAAA", &[], b"1"));
    let b = with_fcs(&ui_frame("BBBBBB", &[], b"2"));
    let mut level = false;
    let mut send = |d: &mut StreamDecoder, frame: &[u8], now: u64| {
        let line = transmission(frame, level);
        level = *line.last().unwrap();
        decode(d, &line, &[0], now).len()
    };
    assert_eq!(send(&mut d, &a, SECOND), 1);
    assert_eq!(send(&mut d, &b, 2 * SECOND), 1);
    assert_eq!(d.process_block(&[], at(3 * SECOND)).len(), 0);
    assert_eq!(send(&mut d, &a, 4 * SECOND - 1), 0);
    assert_eq!(send(&mut d, &a, 4 * SECOND), 1);
    assert_eq!(send(&mut d, &b, 5 * SECOND - 1), 0);
}

#[test]
fn the_longest_frame_is_decoded_and_a_longer_one_is_not() {
    for (info, heard) in [(494usize, 1usize), (495, 0)] {
        let frame = ui_frame("N0CALL", &[], &vec![b'x'; info]);
        let mut d = decoder(1, FixBits::Off);
        let got = decode(&mut d, &transmission(&with_fcs(&frame), false), &[0], 0);
        assert_eq!(got.len(), heard);
        assert!(got.iter().all(|p| p.raw_ax25.len() + 2 == 512));
    }
}

#[test]
fn different_frames_of_a_block_keep_their_order() {
    let a = with_fcs(&ui_frame("AAAAAA", &[], b"1"));
    let b = with_fcs(&ui_frame("BBBBBB", &[], b"2"));
    let mut line = transmission(&b, false);
    let level = *line.last().unwrap();
    line.extend(transmission(&a, level));
    let level = *line.last().unwrap();
    line.extend(transmission(&b, level));
    let mut d = decoder(2, FixBits::Off);
    let got = decode(&mut d, &line, &[0, 1], 0);
    let sources: Vec<&str> = got.iter().map(|p| p.source.as_str()).collect();
    assert_eq!(sources, vec!["BBBBBB", "AAAAAA"]);
    assert_eq!(got[0].slicer_mask, 0b11);
    assert!(got[0].heard_direct);
    assert_eq!(got[0].heard_from, "BBBBBB");
}

#[test]
fn bits_of_slicers_that_do_not_exist_are_ignored() {
    let frame = with_fcs(&ui_frame("N0CALL", &[], b"x"));
    let mut d = decoder(2, FixBits::Off);
    assert!(decode(&mut d, &transmission(&frame, false), &[2, 9], 0).is_empty());
}

#[test]
fn damaged_frames_are_heard_as_far_as_recovery_goes() {
    let good = ui_frame("N0CALL", &[], b"recover me");
    let sent = with_fcs(&good);
    let mut one = sent.clone();
    one[20] ^= 0x10;
    let mut two = sent.clone();
    two[20] ^= 0x30;
    for (bad, mode, heard) in [
        (&one, FixBits::Off, false),
        (&one, FixBits::Single, true),
        (&one, FixBits::Double, true),
        (&two, FixBits::Off, false),
        (&two, FixBits::Single, false),
        (&two, FixBits::Double, true),
    ] {
        let mut d = decoder(1, mode);
        let got = decode(&mut d, &transmission(bad, false), &[0], 0);
        if heard {
            assert_eq!(got[0].raw_ax25, good);
        } else {
            assert!(got.is_empty());
        }
    }
}

#[test]
fn frames_that_do_not_parse_are_dropped() {
    let mut frame = ui_frame("N0CALL", &[], b"xx");
    frame[14] = 0x13;
    let mut d = decoder(1, FixBits::Off);
    assert!(decode(&mut d, &transmission(&with_fcs(&frame), false), &[0], 0).is_empty());
}

#[test]
fn an_empty_information_field_has_no_type() {
    let mut d = decoder(1, FixBits::Off);
    let frame = with_fcs(&ui_frame("N0CALL", &[], b""));
    let got = decode(&mut d, &transmission(&frame, false), &[0], 0);
    assert_eq!(got[0].dti, None);
    assert_eq!(got[0].text, "N0CALL>APRS:");
}

#[test]
fn a_channel_gets_a_decoder_once_and_again_after_a_failure() {
    let mut r = Router::new();
    assert!(r.arrived(1));
    assert!(r.arrived(2));
    assert!(!r.arrived(1));
    r.give_up(1);
    assert!(!r.arrived(2));
    assert!(r.arrived(1));
    r.give_up(7);
    assert!(!r.arrived(1));
}

#[test]
fn decoder_defaults() {
    let c = DecoderConfig::default();
    assert_eq!((c.mark_hz, c.space_hz, c.baud, c.slicers), (1200, 2200, 1200, 8));
    assert_eq!(f32::from_bits(c.min_twist_db), -12.0);
    assert_eq!(f32::from_bits(c.max_twist_db), 9.0);
    assert_eq!(c.fix_bits, FixBits::Single);
    assert_eq!(AudioLevel::default(), AudioLevel { rec: 0, mark: 0, space: 0 });
}
