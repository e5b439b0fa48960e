use aprs_stream::audio;
use aprs_stream::error::Error;
use aprs_stream::pipeline::stream_decoder::ModemPacket;
use aprs_stream::sdr::device::Gain;
use aprs_stream::stream::codec::{json_answer, to_json, CodecError};
use aprs_stream::stream::consumer::{
    describe_framing, info_bytes, payload_summary, render_via, tnc2, PayloadKind,
};
use aprs_stream::stream::proto::{
    AprsFrame, AudioLevel, Ax25Meta, CaptureMeta, RfMeta, ViaHop, PROTOCOL_VERSION,
};
use aprs_stream::streamd::config::{
    default_gain, default_sample_rate, is_unknown_mode, resolve_path, select_source, to_gain,
    EmitSection, Endpoint, GainSetting, SourceKind,
};
use aprs_stream::streamd::frames::{
    assemble_frame, epoch_millis, info_offset, map_frame_rtp, map_frame_sdr, zip_via,
};
use ciborium::value::Value;

/// A frame whose parsed packet comes from a real text line, with raw bytes made from the
/// same packet.
fn frame_from_tnc2(tnc2: &[u8]) -> AprsFrame {
    let packet = aprs_decode::AprsPacket::decode_textual(tnc2).expect("parse tnc2");
    let ax25 = packet.encode_ax25().expect("encode ax25");
    AprsFrame::new(
        CaptureMeta {
            received_at_ms: 1_719_580_800_123,
            receiver: Some("packet.local".into()),
            decoder: Some("aprs-rtp/0.2.0".into()),
            ssrc: Some(144_390),
        },
        RfMeta {
            frequency_hz: Some(144_390_000),
            snr_db: None,
            audio_level: Some(AudioLevel {
                rec: 52,
                mark: 24,
                space: 21,
            }),
            slicer_hits: Some(6),
            slicer_mask: Some(0b0011_1110),
            slicer_gains: Some(vec![0.5f32.to_bits(), 2.0f32.to_bits()]),
        },
        true,
        ax25,
        None,
        Some(packet),
    )
}

fn cbor(v: &Value) -> Vec<u8> {
    let mut buf = Vec::new();
    ciborium::into_writer(v, &mut buf).expect("encode");
    buf
}

#[test]
fn version_is_stamped() {
    let frame = frame_from_tnc2(b"W1AW>APRS:>hi");
    assert_eq!(frame.version, PROTOCOL_VERSION);
    assert_eq!(PROTOCOL_VERSION, 2);
}

#[test]
fn json_debug_helper_works() {
    let frame = frame_from_tnc2(b"W1AW>APRS:>hi");
    let bytes = cbor(&Value::Map(vec![
        (Value::from("version"), Value::from(frame.version)),
        (Value::from("ax25"), Value::from(frame.ax25.clone())),
        (
            Value::from("parsed"),
            Value::serialized(&frame.parsed).expect("serialize packet"),
        ),
    ]));
    let json = to_json(&bytes).expect("to_json");
    assert!(json.contains("\"version\""));
    assert!(json.contains("\"parsed\""));
}

#[test]
fn json_of_small_items() {
    let item = Value::Map(vec![
        (Value::from("a"), Value::from(1)),
        (Value::from("b"), Value::Bytes(vec![2, 3])),
    ]);
    assert_eq!(
        to_json(&cbor(&item)).unwrap(),
        "{\n  \"a\": 1,\n  \"b\": [\n    2,\n    3\n  ]\n}"
    );
}

#[test]
fn json_errors_say_what_went_wrong() {
    match to_json(&[]) {
        Err(CodecError::Decode(e)) => {
            let expected = ciborium::from_reader::<Value, &[u8]>(&[]).unwrap_err();
            assert_eq!(e, expected.to_string());
        }
        other => panic!("unexpected {other:?}"),
    }
    // JSON has no keys that are arrays.
    let odd = Value::Map(vec![(Value::Array(vec![]), Value::Null)]);
    match to_json(&cbor(&odd)) {
        Err(CodecError::Json(e)) => {
            assert_eq!(e, serde_json::to_string_pretty(&odd).unwrap_err().to_string());
        }
        other => panic!("unexpected {other:?}"),
    }
}

#[test]
fn answers_follow_the_outcome() {
    assert_eq!(json_answer(Ok(Ok("{}".into()))).unwrap(), "{}");
    let e = json_answer(Ok(Err("bad key".into()))).unwrap_err();
    assert_eq!(e.message(), "json conversion error: bad key");
    let e = json_answer(Err("eof".into())).unwrap_err();
    assert_eq!(e.message(), "cbor decode error: eof");
    assert_eq!(
        CodecError::Encode("x".into()).message(),
        "cbor encode error: x"
    );
    assert_eq!(Error::ChannelClosed.message(), "channel closed");
    assert_eq!(Error::Io("gone".into()).message(), "I/O error: gone");
}

#[test]
fn tnc2_round_trips_full_packet() {
    let line = b"W1AW-9>APRS,WIDE1-1,WIDE2-2:!4903.50N/07201.75W-Test";
    let pkt = aprs_decode::AprsPacket::decode_textual(line).unwrap();
    let encoded = pkt.encode_textual().unwrap();
    assert_eq!(
        tnc2(Some(&encoded), &pkt.from.to_string(), &pkt.to.to_string()),
        String::from_utf8_lossy(line)
    );
    assert_eq!(payload_summary(PayloadKind::Position), "Position");
    assert_eq!(tnc2(None, "A", "B"), "A>B <unencodable info>");
}

#[test]
fn render_via_marks_heard_hops() {
    let m = Ax25Meta {
        via: vec![
            ViaHop {
                call: "W1XYZ-1".into(),
                heard: true,
            },
            ViaHop {
                call: "WIDE2-1".into(),
                heard: false,
            },
        ],
        ..Default::default()
    };
    assert_eq!(render_via(&m), "W1XYZ-1*,WIDE2-1");
    assert_eq!(render_via(&Ax25Meta::default()), "(none)");
}

#[test]
fn payload_kinds_have_names() {
    assert_eq!(payload_summary(PayloadKind::MicE), "Mic-E position");
    assert_eq!(payload_summary(PayloadKind::Nmea), "NMEA");
    assert_eq!(payload_summary(PayloadKind::Unknown(b'~')), "Unknown(dti=~)");
    assert_eq!(payload_summary(PayloadKind::Other), "Other");
}

#[test]
fn framing_is_described_on_one_line() {
    let mut m = Ax25Meta::default();
    m.source = "W1AW-9".into();
    m.destination = "APRS".into();
    m.heard_from = "W1AW-9".into();
    m.heard_direct = true;
    m.dti = Some(b'!');
    m.info_offset = Some(16);
    m.info_invalid_bytes = 3;
    assert_eq!(
        describe_framing(&m, 24),
        "    ax25: W1AW-9>APRS via [(none)] direct=true heard_from=W1AW-9 dti='!' info@16 len=8 invalid=3"
    );
    assert_eq!(info_bytes(&m, 16), Some(0));
    assert_eq!(info_bytes(&m, 15), None);
    m.info_offset = None;
    m.dti = None;
    assert_eq!(
        describe_framing(&m, 24),
        "    ax25: W1AW-9>APRS via [(none)] direct=true heard_from=W1AW-9 dti=none info@? len=? invalid=3"
    );
}

fn packet(line: &[u8], info_len: usize) -> ModemPacket {
    let p = aprs_decode::AprsPacket::decode_textual(line).unwrap();
    let raw = p.encode_ax25().unwrap();
    let info = raw[raw.len() - info_len..].to_vec();
    ModemPacket {
        ssrc: 144_390,
        text: String::new(),
        raw_ax25: raw,
        received_at: Some(1_719_580_800_123),
        first_slice: 1,
        slicer_hits: 5,
        audio_level: audio::AudioLevel { rec: 52, mark: 24, space: 21 },
        source: "W1AW-9".into(),
        destination: "APRS".into(),
        via: vec!["WIDE1-1".into(), "WIDE2-2".into()],
        via_heard: vec![true, false],
        heard_direct: false,
        heard_from: "W1AW-9".into(),
        slicer_mask: 0b11_1110,
        dti: info.first().copied(),
        info,
        info_invalid_bytes: 0,
        signal: Some(audio::SignalMetrics { snr_db: 17.25f32.to_bits(), rssi_dbfs: 0 }),
    }
}

const LINE: &[u8] = b"W1AW-9>APRS,WIDE1-1,WIDE2-2:!4903.50N/07201.75W-EOSS chase";

#[test]
fn packets_become_frames() {
    let pkt = packet(LINE, 30);
    let gains = [0.5f32.to_bits(), 1.0f32.to_bits()];
    let f = map_frame_sdr(&pkt, "rtl-sdr#0", &gains);
    assert_eq!(f.version, 2);
    assert_eq!(f.capture.received_at_ms, 1_719_580_800_123);
    assert_eq!(f.capture.receiver.as_deref(), Some("rtl-sdr#0"));
    assert_eq!(f.capture.decoder.as_deref(), Some("aprs-sdr/0.1.0"));
    assert_eq!(f.capture.ssrc, Some(144_390));
    assert_eq!(f.rf.frequency_hz, Some(144_390_000));
    assert_eq!(f.rf.snr_db.map(f32::from_bits), Some(17.25));
    assert_eq!(f.rf.audio_level, Some(AudioLevel { rec: 52, mark: 24, space: 21 }));
    assert_eq!(f.rf.slicer_hits, Some(5));
    assert_eq!(f.rf.slicer_mask, Some(0b11_1110));
    assert_eq!(f.rf.slicer_gains.as_deref(), Some(&gains[..]));
    assert!(f.crc_ok);
    assert_eq!(f.ax25, pkt.raw_ax25);
    let m = f.ax25_meta.as_ref().unwrap();
    assert_eq!(m.source, "W1AW-9");
    assert_eq!(m.via.len(), 2);
    assert_eq!((m.via[0].call.as_str(), m.via[0].heard), ("WIDE1-1", true));
    assert_eq!((m.via[1].call.as_str(), m.via[1].heard), ("WIDE2-2", false));
    assert_eq!(m.dti, Some(b'!'));
    let off = m.info_offset.unwrap() as usize;
    assert_eq!(f.ax25[off..], pkt.info[..]);
    // The payload was really parsed.
    let parsed = f.parsed.unwrap();
    assert_eq!(parsed, aprs_decode::AprsPacket::decode_ax25(&pkt.raw_ax25).unwrap());
    assert_eq!(parsed.from.to_string(), "W1AW-9");

    let f = map_frame_rtp(&pkt, "packet.local", &gains);
    assert_eq!(f.capture.decoder.as_deref(), Some("aprs-rtp/0.2.0"));
    assert_eq!(f.rf.snr_db, None);
}

#[test]
fn frames_that_do_not_parse_are_published_unparsed() {
    let mut pkt = packet(LINE, 30);
    pkt.raw_ax25 = vec![0x82, 0xa0, 0xb4, 0x00, 0xff, 0x03, 0xf0];
    pkt.received_at = None;
    let f = map_frame_sdr(&pkt, "r", &[]);
    assert!(f.parsed.is_none());
    assert_eq!(f.ax25, pkt.raw_ax25);
    assert_eq!(f.capture.received_at_ms, 0);
    // An information field longer than the frame has no place in it.
    assert_eq!(f.ax25_meta.unwrap().info_offset, None);
    let f = assemble_frame(&pkt, "r", "d", None, &[], None);
    assert_eq!(f.capture.decoder.as_deref(), Some("d"));
}

#[test]
fn small_mappings() {
    assert_eq!(info_offset(24, 8), Some(16));
    assert_eq!(info_offset(8, 8), Some(0));
    assert_eq!(info_offset(7, 8), None);
    assert_eq!(epoch_millis(Some(5)), 5);
    assert_eq!(epoch_millis(Some((1u128 << 64) + 9)), 9);
    assert_eq!(epoch_millis(None), 0);
    assert_eq!(zip_via(&["A".to_string(), "B".to_string()], &[true]).len(), 1);
    assert!(zip_via(&[], &[true]).is_empty());
}

#[test]
fn configured_gain() {
    assert_eq!(to_gain(&GainSetting::Tenths(-5)), Gain::Manual(-5));
    assert_eq!(to_gain(&GainSetting::Mode("Auto".into())), Gain::Auto);
    assert_eq!(to_gain(&GainSetting::Mode("HW-AGC".into())), Gain::HardwareAgc);
    let odd = GainSetting::Mode("loud".into());
    assert_eq!(to_gain(&odd), Gain::Manual(400));
    assert!(is_unknown_mode(&odd));
    assert!(!is_unknown_mode(&GainSetting::Mode("AUTO".into())));
    assert_eq!(to_gain(&default_gain()), Gain::Manual(400));
    assert_eq!(default_sample_rate(), 1_200_000);
}

#[test]
fn destinations_start_with_the_group() {
    let mut e = EmitSection::default();
    assert_eq!((e.group, e.port, e.interface, e.ttl), ([239, 12, 34, 56], 17_014, [0; 4], 1));
    e.destinations = vec![
        Endpoint::V4([10, 0, 0, 7], 9),
        Endpoint::V6([1; 16], 8, 7, 6),
    ];
    let all = e.destinations();
    assert_eq!(all.len(), 3);
    assert!(matches!(all[0], Endpoint::V4([239, 12, 34, 56], 17_014)));
    assert!(matches!(all[1], Endpoint::V4([10, 0, 0, 7], 9)));
    assert!(matches!(all[2], Endpoint::V6(_, 8, 7, 6)));
}

#[test]
fn config_file_is_looked_for_in_order() {
    let (arg, env) = (Some("a.toml"), Some("e.toml"));
    assert_eq!(resolve_path(arg, env, true, true).as_deref(), Some("a.toml"));
    assert_eq!(resolve_path(Some(""), env, true, true).as_deref(), Some(""));
    assert_eq!(resolve_path(None, env, true, true).as_deref(), Some("e.toml"));
    assert_eq!(resolve_path(None, Some(""), true, true).as_deref(), Some("config.toml"));
    assert_eq!(
        resolve_path(None, None, false, true).as_deref(),
        Some("/etc/aprs-streamd/config.toml")
    );
    assert_eq!(resolve_path(None, None, false, false), None);
}

#[test]
fn exactly_one_source() {
    assert_eq!(select_source(true, false), Ok(SourceKind::Rtp));
    assert_eq!(select_source(false, true), Ok(SourceKind::Sdr));
    assert_eq!(
        select_source(true, true),
        Err("configure only one of [source] (RTP) or [sdr]".to_string())
    );
    assert_eq!(
        select_source(false, false),
        Err("no audio source: configure [source] (RTP) or [sdr]".to_string())
    );
}
