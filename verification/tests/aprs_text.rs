use aprs_stream::aprs::text::{count_suspect_bytes, render_bytes, to_tnc2};
use aprs_stream::ax25::frame::Ax25Frame;

fn make_frame(src: &str, dst: &str, via: Vec<(String, bool)>, info: &[u8]) -> Ax25Frame {
    let (via_calls, via_heard): (Vec<String>, Vec<bool>) = via.into_iter().unzip();
    Ax25Frame {
        source: src.to_string(),
        destination: dst.to_string(),
        via: via_calls,
        via_heard,
        info: info.to_vec(),
    }
}

#[test]
fn direct_packet_no_via() {
    let f = make_frame("KA9Q-1", "APDR15", vec![], b"/test info");
    assert_eq!(to_tnc2(&f), "KA9Q-1>APDR15:/test info");
}

#[test]
fn via_with_h_bit_gets_star() {
    let f = make_frame(
        "KA9Q-1",
        "APDR15",
        vec![
            ("WIDE1-1".to_string(), false),
            ("KD9PDP-3".to_string(), true),
        ],
        b"!data",
    );
    assert_eq!(to_tnc2(&f), "KA9Q-1>APDR15,WIDE1-1,KD9PDP-3*:!data");
}

#[test]
fn all_via_heard() {
    let f = make_frame(
        "W9XYZ",
        "APRS",
        vec![("RELAY".to_string(), true), ("WIDE".to_string(), true)],
        b">status",
    );
    assert_eq!(to_tnc2(&f), "W9XYZ>APRS,RELAY*,WIDE*:>status");
}

#[test]
fn control_bytes_stripped_tab_kept() {
    let f = make_frame("KA9Q-1", "APDR15", vec![], b"a\x00b\rc\nd\te\x7Ff");
    assert_eq!(to_tnc2(&f), "KA9Q-1>APDR15:abcd\tef");
}

#[test]
fn valid_utf8_preserved_not_double_encoded() {
    let f = make_frame("KA9Q-1", "APDR15", vec![], "23°C".as_bytes());
    assert_eq!(to_tnc2(&f), "KA9Q-1>APDR15:23°C");
}

#[test]
fn invalid_high_bytes_become_replacement_char() {
    let f = make_frame("KA9Q-1", "APDR15", vec![], &[b'x', 0xFF, b'y']);
    assert_eq!(to_tnc2(&f), "KA9Q-1>APDR15:x\u{FFFD}y");
}

#[test]
fn flags_without_path_entries_are_left_out() {
    let mut f = make_frame("A", "B", vec![("C".to_string(), true)], b"");
    f.via_heard.push(true);
    assert_eq!(to_tnc2(&f), "A>B,C*:");
    f.via_heard.clear();
    assert_eq!(to_tnc2(&f), "A>B:");
}

#[test]
fn suspect_bytes_counts_ff_run_and_control_not_clean_text() {
    assert_eq!(count_suspect_bytes(b"`pEBoA?k/]\"HS}145.190MHz"), 0);
    assert_eq!(count_suspect_bytes(b"a\tb\r\n"), 0);
    assert_eq!(count_suspect_bytes("23°C".as_bytes()), 0);
    let mut info = b"`pEBoA?k/]\"HS}145.190MHz".to_vec();
    info.extend(std::iter::repeat(0xFF).take(18));
    info.push(b'=');
    info.push(b'\r');
    assert_eq!(count_suspect_bytes(&info), 18);
    assert_eq!(count_suspect_bytes(b"4P\x00\x0f4T"), 2);
}

fn count_invalid_by_std(mut bytes: &[u8]) -> usize {
    let mut count = 0;
    loop {
        match std::str::from_utf8(bytes) {
            Ok(_) => return count,
            Err(e) => match e.error_len() {
                Some(len) => {
                    count += len;
                    bytes = &bytes[e.valid_up_to() + len..];
                }
                None => return count + (bytes.len() - e.valid_up_to()),
            },
        }
    }
}

#[test]
fn rendering_agrees_with_lossy_utf8_on_all_short_strings_of_critical_bytes() {
    let critical = [
        b'a', 0x7F, 0x80, 0x8F, 0x90, 0x9F, 0xA0, 0xBF, 0xC0, 0xC1, 0xC2, 0xDF, 0xE0, 0xE1, 0xEC,
        0xED, 0xEE, 0xEF, 0xF0, 0xF1, 0xF3, 0xF4, 0xF5, 0xFF,
    ];
    let n = critical.len();
    for len in 0..=4u32 {
        for code in 0..n.pow(len) {
            let mut rest = code;
            let bytes: Vec<u8> = (0..len)
                .map(|_| {
                    let b = critical[rest % n];
                    rest /= n;
                    b
                })
                .collect();
            assert_eq!(render_bytes(&bytes), String::from_utf8_lossy(&bytes));
            assert_eq!(count_suspect_bytes(&bytes), count_invalid_by_std(&bytes));
        }
    }
}

#[test]
fn every_character_renders_as_itself() {
    for c in (0..=0x10FFFFu32).filter_map(char::from_u32) {
        let mut buf = [0u8; 4];
        let s: &str = c.encode_utf8(&mut buf);
        assert_eq!(render_bytes(s.as_bytes()), s);
    }
}
