use aprs_stream::ax25::frame::{is_aprs_alias, Ax25Frame};

/// Encode a callsign into 7-byte AX.25 address format.
fn encode_address(call: &str, ssid: u8, end_bit: bool, h_bit: bool) -> [u8; 7] {
    let mut out = [b' ' << 1; 7]; // pad with space<<1
    let base: &str = if let Some(pos) = call.find('-') {
        &call[..pos]
    } else {
        call
    };
    for (i, ch) in base.chars().enumerate().take(6) {
        out[i] = (ch as u8) << 1;
    }
    let ssid_byte = (ssid << 1)
        | if end_bit { 0x01 } else { 0x00 }
        | if h_bit { 0x80 } else { 0x00 }
        | 0x60; // reserved bits set per AX.25 spec
    out[6] = ssid_byte;
    out
}

fn build_ui_frame(
    dest: &str,
    src: &str,
    via: &[(&str, bool)], // (callsign, h_bit)
    info: &[u8],
) -> Vec<u8> {
    let mut frame = Vec::new();
    // Destination never carries the end-of-address bit: the source (and any
    // via entries) always follow it, so its end_bit is always false.
    frame.extend_from_slice(&encode_address(dest, 0, false, false));

    let src_end = via.is_empty();
    // Extract SSID from src if present.
    let (src_base, src_ssid) = parse_ssid(src);
    let mut src_bytes = encode_address(src_base, src_ssid, src_end, false);
    // Remove reserved bits override — just use what encode_address gave us, but fix end.
    if src_end {
        src_bytes[6] |= 0x01;
    } else {
        src_bytes[6] &= !0x01;
    }
    frame.extend_from_slice(&src_bytes);

    for (i, &(call, h)) in via.iter().enumerate() {
        let end = i == via.len() - 1;
        let (base, ssid) = parse_ssid(call);
        let mut via_bytes = encode_address(base, ssid, end, h);
        if end {
            via_bytes[6] |= 0x01;
        } else {
            via_bytes[6] &= !0x01;
        }
        frame.extend_from_slice(&via_bytes);
    }

    frame.push(0x03); // control: UI
    frame.push(0xF0); // PID: No Layer 3
    frame.extend_from_slice(info);
    frame
}

fn parse_ssid(call: &str) -> (&str, u8) {
    if let Some(pos) = call.find('-') {
        let base = &call[..pos];
        let ssid: u8 = call[pos + 1..].parse().unwrap_or(0);
        (base, ssid)
    } else {
        (call, 0)
    }
}

#[test]
fn parse_basic_ui_frame() {
    let info = b"/position data";
    let frame = build_ui_frame("APDR15", "KA9Q-1", &[], info);
    let parsed = Ax25Frame::parse(&frame).expect("should parse");
    assert_eq!(parsed.destination, "APDR15");
    assert_eq!(parsed.source, "KA9Q-1");
    assert!(parsed.via.is_empty());
    assert_eq!(parsed.info, info);
}

#[test]
fn parse_via_with_h_bit() {
    let info = b"test info";
    // Via: WIDE1-1 not heard (H=0), KD9PDP-3 heard (H=1).
    let frame = build_ui_frame(
        "APDR15",
        "KA9Q-1",
        &[("WIDE1-1", false), ("KD9PDP-3", true)],
        info,
    );
    let parsed = Ax25Frame::parse(&frame).expect("should parse");
    assert_eq!(parsed.via.len(), 2);
    assert_eq!(parsed.via_heard, vec![false, true]);
    assert_eq!(parsed.heard_from(), "KD9PDP-3");
    assert!(!parsed.heard_direct());
}

#[test]
fn heard_direct_no_via() {
    let frame = build_ui_frame("APDR15", "KA9Q-1", &[], b"direct");
    let parsed = Ax25Frame::parse(&frame).unwrap();
    assert!(parsed.heard_direct());
    assert_eq!(parsed.heard_from(), "KA9Q-1");
}

#[test]
fn heard_direct_with_unheared_via() {
    // Via exists but H-bit not set → still heard directly.
    let frame = build_ui_frame("APDR15", "KA9Q-1", &[("WIDE1-1", false)], b"direct");
    let parsed = Ax25Frame::parse(&frame).unwrap();
    assert!(parsed.heard_direct());
    assert_eq!(parsed.heard_from(), "KA9Q-1");
}

#[test]
fn heard_from_returns_last_h_bit_set() {
    // Two repeated digipeaters — heard_from must be the last one, not the first.
    let frame = build_ui_frame(
        "APDR15",
        "KA9Q-1",
        &[("W0NED", true), ("KD9PDP-3", true)],
        b"info",
    );
    let parsed = Ax25Frame::parse(&frame).unwrap();
    assert!(!parsed.heard_direct());
    assert_eq!(parsed.heard_from(), "KD9PDP-3");
}

#[test]
fn heard_from_first_repeated_not_last() {
    // Only the first via has H=1 (unusual but legal: e.g., a fill-in digi
    // marked itself before forwarding to a wide that hasn't yet acted).
    let frame = build_ui_frame(
        "APDR15",
        "KA9Q-1",
        &[("W0NED", true), ("WIDE2-1", false)],
        b"info",
    );
    let parsed = Ax25Frame::parse(&frame).unwrap();
    assert!(!parsed.heard_direct());
    assert_eq!(parsed.heard_from(), "W0NED");
}

#[test]
fn heard_from_skips_trailing_wide_alias() {
    // The real-world case from the user's example:
    //   N7UW-1>APMI06,NCFPD*,SIMLA*,WIDE2*:...
    // The trailing WIDE2* is a routing slot, not a station — the last
    // real digipeater is SIMLA.
    let frame = build_ui_frame(
        "APMI06",
        "N7UW-1",
        &[("NCFPD", true), ("SIMLA", true), ("WIDE2", true)],
        b"info",
    );
    let parsed = Ax25Frame::parse(&frame).unwrap();
    assert_eq!(parsed.heard_from(), "SIMLA");
}

#[test]
fn heard_from_skips_wide_with_ssid() {
    // WIDE2-1 (with SSID) is still an alias and must be skipped.
    let frame = build_ui_frame(
        "APMI06",
        "N7UW-1",
        &[("KD9PDP-3", true), ("WIDE2-1", true)],
        b"info",
    );
    let parsed = Ax25Frame::parse(&frame).unwrap();
    assert_eq!(parsed.heard_from(), "KD9PDP-3");
}

#[test]
fn heard_from_skips_tcpip_annotation() {
    // iGate annotations (TCPIP*, NOGATE, RFONLY) also count as aliases.
    let frame = build_ui_frame(
        "APMI06",
        "N7UW-1",
        &[("W0SCA-10", true), ("TCPIP", true)],
        b"info",
    );
    let parsed = Ax25Frame::parse(&frame).unwrap();
    assert_eq!(parsed.heard_from(), "W0SCA-10");
}

#[test]
fn heard_from_falls_back_to_source_when_only_aliases_repeated() {
    // If every H-bit-set entry is an alias, fall back to source — we
    // can't determine which station actually transmitted.
    let frame = build_ui_frame(
        "APMI06",
        "N7UW-1",
        &[("WIDE1-1", true), ("WIDE2-1", true)],
        b"info",
    );
    let parsed = Ax25Frame::parse(&frame).unwrap();
    assert!(!parsed.heard_direct()); // direct stays false — H-bits ARE set
    assert_eq!(parsed.heard_from(), "N7UW-1");
}

#[test]
fn rejects_non_ui_frame() {
    let mut frame = build_ui_frame("APDR15", "KA9Q-1", &[], b"test");
    // Change control byte from 0x03 to 0x05 (not UI).
    let ctrl_pos = 14; // 7 (dest) + 7 (src) = 14
    frame[ctrl_pos] = 0x05;
    assert!(Ax25Frame::parse(&frame).is_none());
}

#[test]
fn rejects_wrong_pid() {
    let mut frame = build_ui_frame("APDR15", "KA9Q-1", &[], b"test");
    let pid_pos = 15;
    frame[pid_pos] = 0xCF; // not 0xF0
    assert!(Ax25Frame::parse(&frame).is_none());
}

#[test]
fn rejects_too_short() {
    assert!(Ax25Frame::parse(&[]).is_none());
    assert!(Ax25Frame::parse(&[0u8; 10]).is_none());
}

/// Overwrite one byte of an address field (pre-SSID) with a raw character,
/// AX.25-shifted, so we can inject mis-decoded callsign bytes.
fn corrupt_addr_char(frame: &mut [u8], addr_index: usize, byte_in_addr: usize, ch: u8) {
    frame[addr_index * 7 + byte_in_addr] = ch << 1;
}

#[test]
fn rejects_lowercase_in_callsign() {
    // Destination is address 0; replace its 2nd char with lowercase 'a'.
    let mut frame = build_ui_frame("APDR15", "KA9Q-1", &[], b"test");
    corrupt_addr_char(&mut frame, 0, 1, b'a');
    assert!(Ax25Frame::parse(&frame).is_none());
}

#[test]
fn rejects_control_char_in_callsign() {
    // A 0x14 address byte decodes (>>1) to 0x0A '\n' — the worst case, since
    // a newline in a callsign would inject a line into an APRS-IS stream.
    let mut frame = build_ui_frame("APDR15", "KA9Q-1", &[], b"test");
    frame[7 + 1] = 0x14; // source address (index 1), 2nd byte, raw 0x14
    assert!(Ax25Frame::parse(&frame).is_none());
}

#[test]
fn rejects_punctuation_in_callsign() {
    // ':' would break the TNC2 SRC>DST:info delimiter.
    let mut frame = build_ui_frame("APDR15", "KA9Q-1", &[], b"test");
    corrupt_addr_char(&mut frame, 1, 2, b':');
    assert!(Ax25Frame::parse(&frame).is_none());
}

#[test]
fn rejects_data_after_embedded_space() {
    // "AB C  " — a space followed by more data is a corrupt field, not a
    // callsign that should be silently squeezed to "ABC".
    let mut frame = build_ui_frame("ABCDEF", "KA9Q-1", &[], b"test");
    corrupt_addr_char(&mut frame, 0, 2, b' '); // dest becomes "AB DEF"
    assert!(Ax25Frame::parse(&frame).is_none());
}

#[test]
fn rejects_empty_callsign() {
    // All-space source address with SSID 0 → empty callsign.
    let mut frame = build_ui_frame("APDR15", "KA9Q-1", &[], b"test");
    for i in 0..6 {
        frame[7 + i] = b' ' << 1; // blank out source base callsign
    }
    frame[7 + 6] &= !0x1E; // clear SSID bits (keep end-of-address bit)
    assert!(Ax25Frame::parse(&frame).is_none());
}

#[test]
fn rejects_bad_char_in_via() {
    // Garbage in a digipeater callsign must drop the whole frame too.
    let mut frame = build_ui_frame("APDR15", "KA9Q-1", &[("WIDE1-1", false)], b"test");
    // Via is address index 2 (dest=0, src=1, via=2).
    corrupt_addr_char(&mut frame, 2, 0, 0x01); // decodes to a control char
    assert!(Ax25Frame::parse(&frame).is_none());
}

#[test]
fn accepts_valid_alphanumeric_callsigns() {
    // Sanity: a clean frame with digits and letters still parses.
    let frame = build_ui_frame("APN382", "N0CALL-9", &[("W0ABC-2", true)], b"!data");
    let parsed = Ax25Frame::parse(&frame).expect("valid frame should parse");
    assert_eq!(parsed.destination, "APN382");
    assert_eq!(parsed.source, "N0CALL-9");
    assert_eq!(parsed.via, vec!["W0ABC-2"]);
}

#[test]
fn wide_trace_alias_matching() {
    // The WIDEn/TRACEn families are aliases whether bare, digit-suffixed, or
    // SSID-suffixed — no real callsign has the `WORD` or `WORD<digit>` shape.
    for alias in [
        "WIDE", "WIDE1", "WIDE2-1", "WIDE7", "TRACE", "TRACE3", "RELAY", "TCPIP",
    ] {
        assert!(is_aprs_alias(alias), "{alias} should be an alias");
    }
    // Real stations (including ones that merely start with the alias letters)
    // must not be misclassified.
    for call in ["W0NED", "KD9PDP-3", "WIDEN", "WIDE12", "TRACEY", "N7UW-1"] {
        assert!(!is_aprs_alias(call), "{call} should NOT be an alias");
    }
}

#[test]
fn ssids_are_written_in_decimal() {
    for ssid in 0..16u8 {
        let mut frame = Vec::new();
        frame.extend_from_slice(&encode_address("APRS", 0, false, false));
        frame.extend_from_slice(&encode_address("N0CALL", ssid, true, false));
        frame.extend_from_slice(&[0x03, 0xF0]);
        let f = Ax25Frame::parse(&frame).unwrap();
        let expected = if ssid == 0 {
            "N0CALL".to_string()
        } else {
            format!("N0CALL-{ssid}")
        };
        assert_eq!(f.source, expected);
        assert!(f.info.is_empty());
        assert!(f.via.is_empty());
    }
}

#[test]
fn truncated_frames_are_rejected() {
    let full = build_ui_frame("APRS", "N0CALL-9", &[("WIDE1-1", true), ("WIDE2-1", false)], b"x");
    assert!(Ax25Frame::parse(&full).is_some());
    // Every prefix without the whole header is refused; the information field may be empty.
    let header = full.len() - 1;
    for n in 0..header {
        assert!(Ax25Frame::parse(&full[..n]).is_none(), "prefix of {n} bytes");
    }
    assert!(Ax25Frame::parse(&full[..header]).is_some());
}

#[test]
fn an_end_bit_on_the_destination_is_ignored() {
    let mut frame = build_ui_frame("APRS", "N0CALL", &[], b"hi");
    frame[6] |= 0x01;
    let f = Ax25Frame::parse(&frame).unwrap();
    assert_eq!(f.source, "N0CALL");
    assert_eq!(f.info, b"hi");
}

#[test]
fn aliases_are_compared_by_their_base() {
    for alias in ["WIDE-7", "TRACE3-3", "RELAY-15", "TCPXX", "IGATECALL"] {
        assert!(is_aprs_alias(alias), "{alias}");
    }
    for call in ["", "-", "WIDE12", "WIDEX", "TRACE-X1-", "relay", "WIDE\u{661}", "AWIDE1"] {
        let expected = call == "TRACE-X1-";
        assert_eq!(is_aprs_alias(call), expected, "{call}");
    }
}
