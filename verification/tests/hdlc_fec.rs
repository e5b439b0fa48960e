use aprs_stream::config::FixBits;
use aprs_stream::hdlc::fec::{check_crc, crc16, try_validate};
use aprs_stream::hdlc::framer::RawFrame;

fn make_raw(data: Vec<u8>) -> RawFrame {
    RawFrame { data }
}

fn frame_with_fcs(payload: &[u8]) -> Vec<u8> {
    let fcs = crc16(payload);
    let mut v = payload.to_vec();
    v.push((fcs & 0xFF) as u8);
    v.push((fcs >> 8) as u8);
    v
}

#[test]
fn crc16_known_vector() {
    // AX.25 FCS of all-zero 16-byte payload:
    // We just verify self-consistency: compute, then check.
    let payload = vec![0u8; 16];
    let fcs = crc16(&payload);
    let mut frame = payload.clone();
    frame.push((fcs & 0xFF) as u8);
    frame.push((fcs >> 8) as u8);
    assert!(check_crc(&frame));
}

#[test]
fn clean_frame_validates() {
    let payload = b"KA9Q-1>APDR15,WIDE1-1:test";
    let frame = frame_with_fcs(payload);
    let raw = make_raw(frame);
    let result = try_validate(&raw, FixBits::Off);
    assert!(result.is_some());
    assert_eq!(result.unwrap().data, payload);
}

#[test]
fn single_bit_error_recovered() {
    let payload = b"KA9Q-1>APDR15:test packet";
    let mut frame = frame_with_fcs(payload);
    // Flip bit 3 of byte 0.
    frame[0] ^= 0x08;
    let raw = make_raw(frame);
    let result = try_validate(&raw, FixBits::Single);
    assert!(result.is_some(), "should recover single-bit error");
    assert_eq!(result.unwrap().data, payload);
}

#[test]
fn double_adjacent_error_recovered() {
    let payload = b"KA9Q-1>APDR15:double bit test";
    let mut frame = frame_with_fcs(payload);
    // Flip bits 2 and 3 of byte 1 (adjacent within byte).
    frame[1] ^= 0x0C;
    let raw = make_raw(frame);
    // Single-bit should fail, double-adjacent should succeed.
    assert!(try_validate(&raw, FixBits::Single).is_none());
    let result = try_validate(&raw, FixBits::Double);
    assert!(result.is_some(), "should recover double-adjacent error");
    assert_eq!(result.unwrap().data, payload);
}

#[test]
fn corrupt_frame_none_mode_returns_none() {
    let payload = b"test";
    let mut frame = frame_with_fcs(payload);
    frame[0] ^= 0xFF; // corrupt heavily
    let raw = make_raw(frame);
    assert!(try_validate(&raw, FixBits::Off).is_none());
}

#[test]
fn check_sequence_of_the_standard_test_string() {
    // The usual check value of this CRC.
    assert_eq!(crc16(b"123456789"), 0x906E);
    assert_eq!(crc16(b""), 0x0000);
}

#[test]
fn frames_without_room_for_a_check_sequence_are_refused() {
    for mode in [FixBits::Off, FixBits::Single, FixBits::Double] {
        assert!(try_validate(&make_raw(vec![]), mode).is_none());
        assert!(try_validate(&make_raw(vec![0]), mode).is_none());
    }
    // An empty payload has the check sequence zero.
    assert_eq!(
        try_validate(&make_raw(vec![0, 0]), FixBits::Off).unwrap().data,
        Vec::<u8>::new()
    );
}

#[test]
fn every_single_bit_error_is_detected_and_repaired() {
    let payload = b"KA9Q-1>APDR15:test packet";
    let good = frame_with_fcs(payload);
    for k in 0..8 * good.len() {
        let mut bad = good.clone();
        bad[k / 8] ^= 1 << (k % 8);
        assert!(!check_crc(&bad));
        assert!(try_validate(&make_raw(bad.clone()), FixBits::Off).is_none());
        assert_eq!(
            try_validate(&make_raw(bad.clone()), FixBits::Single).unwrap().data,
            payload
        );
        assert_eq!(
            try_validate(&make_raw(bad), FixBits::Double).unwrap().data,
            payload
        );
    }
}

#[test]
fn every_pair_of_neighbouring_errors_is_repaired_only_as_a_pair() {
    let payload = b"KA9Q-1>APDR15:test packet";
    let good = frame_with_fcs(payload);
    for k in 0..8 * good.len() - 1 {
        let mut bad = good.clone();
        bad[k / 8] ^= 1 << (k % 8);
        bad[(k + 1) / 8] ^= 1 << ((k + 1) % 8);
        assert!(try_validate(&make_raw(bad.clone()), FixBits::Single).is_none());
        assert_eq!(
            try_validate(&make_raw(bad), FixBits::Double).unwrap().data,
            payload
        );
    }
}

#[test]
fn errors_a_whole_period_apart_cannot_be_told_apart() {
    // Beyond 32767 bits an inverted bit looks like another one a period earlier.
    let good = frame_with_fcs(&vec![0x55u8; 4_200]);
    let mut bad = good.clone();
    let k = 32_767;
    bad[k / 8] ^= 1 << (k % 8);
    let fixed = try_validate(&make_raw(bad.clone()), FixBits::Single).unwrap();
    bad[0] ^= 1;
    assert_eq!(fixed.data, bad[..bad.len() - 2]);
    assert_ne!(fixed.data, good[..good.len() - 2]);
}
