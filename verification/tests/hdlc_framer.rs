use aprs_stream::hdlc::framer::HdlcDecoder;

fn bits_from_bytes(bytes: &[u8]) -> Vec<bool> {
    // Returns bits LSB-first per byte (same order HDLC transmits them).
    bytes
        .iter()
        .flat_map(|&b| (0..8).map(move |i| (b >> i) & 1 == 1))
        .collect()
}

fn nrzi_encode(bits: &[bool]) -> Vec<bool> {
    // NRZI: 0 → transition, 1 → no transition; start from false.
    let mut raw = Vec::with_capacity(bits.len());
    let mut prev = false;
    for &b in bits {
        if !b {
            prev = !prev; // transition
        }
        raw.push(prev);
    }
    raw
}

fn stuff_bits(bits: &[bool]) -> Vec<bool> {
    let mut out = Vec::new();
    let mut ones = 0u8;
    for &b in bits {
        out.push(b);
        if b {
            ones += 1;
            if ones == 5 {
                out.push(false); // stuffed zero
                ones = 0;
            }
        } else {
            ones = 0;
        }
    }
    out
}

fn build_hdlc_frame(payload: &[u8]) -> Vec<bool> {
    // Build: flag | bitstuff(payload) | flag
    let flag_bits: Vec<bool> = bits_from_bytes(&[0x7E]);
    let payload_bits = bits_from_bytes(payload);
    let stuffed = stuff_bits(&payload_bits);
    let mut frame = flag_bits.clone();
    frame.extend_from_slice(&stuffed);
    frame.extend_from_slice(&flag_bits);
    nrzi_encode(&frame)
}

/// Compute CRC-16-CCITT (HDLC FCS).
fn crc16(data: &[u8]) -> u16 {
    let mut crc: u16 = 0xFFFF;
    for &byte in data {
        let mut b = byte;
        for _ in 0..8 {
            let bit = (crc ^ b as u16) & 1;
            crc >>= 1;
            if bit != 0 {
                crc ^= 0x8408;
            }
            b >>= 1;
        }
    }
    !crc
}

fn valid_ax25_frame(content: &[u8]) -> Vec<u8> {
    // Append 2-byte FCS (little-endian) to make a valid frame.
    let fcs = crc16(content);
    let mut frame = content.to_vec();
    frame.push((fcs & 0xFF) as u8);
    frame.push((fcs >> 8) as u8);
    frame
}

#[test]
fn decodes_minimal_valid_frame() {
    // Construct a minimal valid HDLC frame: 18 bytes payload (with FCS).
    // Use 18 bytes of zeroes + correct FCS.
    let content = vec![0u8; 16]; // 16 bytes data → 18 with FCS
    let frame_bytes = valid_ax25_frame(&content);
    assert_eq!(frame_bytes.len(), 18);

    let raw_nrzi = build_hdlc_frame(&frame_bytes);
    let mut dec = HdlcDecoder::new(0);
    let mut decoded = None;
    for raw_bit in raw_nrzi {
        if let Some(f) = dec.push_bit(raw_bit) {
            decoded = Some(f);
        }
    }
    let f = decoded.expect("should have decoded a frame");
    assert_eq!(f.data, frame_bytes);
}

#[test]
fn rejects_short_frame() {
    // 17-byte frames are below MIN_FRAME_LEN; should not be emitted.
    let content = vec![0u8; 15];
    let frame_bytes = valid_ax25_frame(&content); // 17 bytes
    assert_eq!(frame_bytes.len(), 17);

    let raw_nrzi = build_hdlc_frame(&frame_bytes);
    let mut dec = HdlcDecoder::new(0);
    let mut got_frame = false;
    for raw_bit in raw_nrzi {
        if dec.push_bit(raw_bit).is_some() {
            got_frame = true;
        }
    }
    assert!(!got_frame, "short frame should be suppressed");
}

#[test]
fn abort_clears_state() {
    // Insert 7 consecutive 1s (abort sequence) mid-frame; should clear state.
    // Build a flag then 7 raw 1-bits then a flag; no frame should be emitted.
    let flag_bits: Vec<bool> = bits_from_bytes(&[0x7E]);
    let abort_bits: Vec<bool> = vec![true; 7];

    let mut frame_bits = flag_bits.clone();
    frame_bits.extend_from_slice(&abort_bits);
    frame_bits.extend_from_slice(&flag_bits);

    let nrzi = nrzi_encode(&frame_bits);
    let mut dec = HdlcDecoder::new(0);
    let mut got_frame = false;
    for b in nrzi {
        if dec.push_bit(b).is_some() {
            got_frame = true;
        }
    }
    assert!(!got_frame, "abort sequence should prevent frame emission");
}

fn receive(dec: &mut HdlcDecoder, raws: &[bool]) -> Vec<Vec<u8>> {
    raws.iter()
        .filter_map(|&b| dec.push_bit(b))
        .map(|f| f.data)
        .collect()
}

#[test]
fn payloads_come_back_at_both_length_limits() {
    for len in [18usize, 19, 100, 511, 512] {
        let payload: Vec<u8> = (0..len).map(|i| (i * 37 + len) as u8).collect();
        let mut dec = HdlcDecoder::new(0);
        assert_eq!(receive(&mut dec, &build_hdlc_frame(&payload)), vec![payload]);
    }
    for len in [0usize, 1, 17, 513, 600, 2_000] {
        let payload = vec![0xA5u8; len];
        let mut dec = HdlcDecoder::new(0);
        assert!(receive(&mut dec, &build_hdlc_frame(&payload)).is_empty());
    }
}

#[test]
fn long_runs_of_ones_are_stuffed_and_restored() {
    let payload = vec![0xFFu8; 40];
    let mut dec = HdlcDecoder::new(0);
    assert_eq!(receive(&mut dec, &build_hdlc_frame(&payload)), vec![payload]);
}

#[test]
fn one_flag_may_close_a_frame_and_open_the_next() {
    let first = vec![0x3Cu8; 20];
    let second: Vec<u8> = (0..30).collect();
    let flag = bits_from_bytes(&[0x7E]);
    let mut logical = flag.clone();
    logical.extend(stuff_bits(&bits_from_bytes(&first)));
    logical.extend_from_slice(&flag);
    logical.extend(stuff_bits(&bits_from_bytes(&second)));
    logical.extend_from_slice(&flag);
    let mut dec = HdlcDecoder::new(0);
    assert_eq!(receive(&mut dec, &nrzi_encode(&logical)), vec![first, second]);
}

#[test]
fn line_polarity_does_not_matter() {
    let payload: Vec<u8> = (100..140).collect();
    let inverted: Vec<bool> = build_hdlc_frame(&payload).iter().map(|b| !b).collect();
    let mut dec = HdlcDecoder::new(0);
    // Settle on the inverted idle level first.
    dec.push_bit(true);
    assert_eq!(receive(&mut dec, &inverted), vec![payload]);
}

#[test]
fn noise_before_a_frame_does_not_matter() {
    let payload: Vec<u8> = (0..50).collect();
    let mut dec = HdlcDecoder::new(0);
    let mut x: u32 = 7;
    let mut level = false;
    for _ in 0..5_000 {
        x = x.wrapping_mul(1_664_525).wrapping_add(1_013_904_223);
        level = x & 0x8000_0000 != 0;
        dec.push_bit(level);
    }
    // Continue from whatever level the noise left.
    let line: Vec<bool> = build_hdlc_frame(&payload).iter().map(|&b| b != level).collect();
    let got = receive(&mut dec, &line);
    assert_eq!(got.last(), Some(&payload));
}

#[test]
fn an_abort_loses_the_frame_but_not_the_next_one() {
    let payload: Vec<u8> = (0..40).collect();
    let flag = bits_from_bytes(&[0x7E]);
    let mut logical = flag.clone();
    logical.extend(stuff_bits(&bits_from_bytes(&payload)));
    logical.push(false);
    logical.extend_from_slice(&[true; 7]);
    logical.extend_from_slice(&flag);
    logical.extend(stuff_bits(&bits_from_bytes(&payload)));
    logical.extend_from_slice(&flag);
    let mut dec = HdlcDecoder::new(0);
    assert_eq!(receive(&mut dec, &nrzi_encode(&logical)), vec![payload]);
}
