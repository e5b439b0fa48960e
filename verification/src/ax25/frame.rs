//! Parsing of UI frames.
//!
//! An address field holds six characters, each shifted left by one bit and padded with
//! spaces, and a seventh byte: the SSID in bits 1 to 4, the has-been-repeated bit at the
//! top and the end-of-address bit at the bottom.

use vstd::prelude::*;

use crate::text;

verus! {

/// Bytes in an address field.
pub const ADDRESS_LEN: usize = 7;

/// Control byte of a UI frame.
pub const CONTROL_UI: u8 = 0x03;

/// Protocol identifier for "no layer 3".
pub const PID_NO_LAYER_3: u8 = 0xF0;

/// Characters that a callsign is made of.
pub open spec fn callsign_char(c: u8) -> bool {
    65 <= c <= 90 || 48 <= c <= 57
}

/// Characters of a field before its padding, from position `i` on.
pub open spec fn base_len(field: Seq<u8>, i: int) -> int
    decreases 6 - i,
{
    if i >= 6 || field[i] / 2 == 32 {
        i
    } else {
        base_len(field, i + 1)
    }
}

/// The field holds a callsign: at least one character, all of them upper-case letters
/// or digits, then nothing but padding.
pub open spec fn callsign_ok(field: Seq<u8>) -> bool {
    let n = base_len(field, 0);
    &&& n > 0
    &&& forall|i: int| 0 <= i < n ==> callsign_char((#[trigger] field[i]) / 2)
    &&& forall|i: int| n <= i < 6 ==> (#[trigger] field[i]) / 2 == 32
}

/// SSID of an address field.
pub open spec fn ssid_of(field: Seq<u8>) -> nat {
    ((field[6] / 2) % 16) as nat
}

/// How an SSID is written behind a callsign.
pub open spec fn ssid_suffix(ssid: nat) -> Seq<char> {
    if ssid == 0 {
        Seq::empty()
    } else {
        seq!['-'] + text::decimal(ssid)
    }
}

/// The callsign of an address field as text.
pub open spec fn address_text(field: Seq<u8>) -> Seq<char> {
    Seq::new(base_len(field, 0) as nat, |i: int| (field[i] / 2) as char) + ssid_suffix(
        ssid_of(field),
    )
}

/// The field is the last of the address part.
pub open spec fn end_bit(field: Seq<u8>) -> bool {
    field[6] % 2 == 1
}

/// The digipeater named in the field has repeated the frame.
pub open spec fn heard_bit(field: Seq<u8>) -> bool {
    field[6] >= 128
}

/// Address field `i` of a frame.
pub open spec fn field_at(data: Seq<u8>, i: int) -> Seq<u8> {
    data.subrange(7 * i, 7 * i + 7)
}

/// Number of address fields, looking for the end bit from field `i` on; `None` if the
/// frame stops before it.
pub open spec fn field_count(data: Seq<u8>, i: int) -> Option<int>
    decreases data.len() - 7 * i,
{
    if 7 * i + 7 > data.len() {
        None
    } else if end_bit(field_at(data, i)) {
        Some(i + 1)
    } else {
        field_count(data, i + 1)
    }
}

/// What a frame says.
#[verifier::ext_equal]
pub struct FrameView {
    /// Source callsign.
    pub source: Seq<char>,
    /// Destination callsign.
    pub destination: Seq<char>,
    /// Digipeater path.
    pub via: Seq<Seq<char>>,
    /// Which digipeaters have repeated the frame.
    pub via_heard: Seq<bool>,
    /// Information field.
    pub info: Seq<u8>,
}

/// The first `n` address fields hold callsigns.
pub open spec fn addresses_ok(data: Seq<u8>, n: int) -> bool {
    forall|i: int| 0 <= i < n ==> callsign_ok(#[trigger] field_at(data, i))
}

/// What the bytes of a UI frame say; `None` if they are not one.
pub open spec fn parsed(data: Seq<u8>) -> Option<FrameView> {
    match field_count(data, 1) {
        Some(n) if 7 * n + 2 <= data.len() && addresses_ok(data, n) && data[7 * n] == CONTROL_UI
            && data[7 * n + 1] == PID_NO_LAYER_3 => Some(
            FrameView {
                destination: address_text(field_at(data, 0)),
                source: address_text(field_at(data, 1)),
                via: Seq::new((n - 2) as nat, |i: int| address_text(field_at(data, i + 2))),
                via_heard: Seq::new((n - 2) as nat, |i: int| heard_bit(field_at(data, i + 2))),
                info: data.skip(7 * n + 2),
            },
        ),
        _ => None,
    }
}

/// First position of a dash at or after `i`, or the length.
pub open spec fn dash_at(call: Seq<char>, i: int) -> int
    decreases call.len() - i,
{
    if i >= call.len() || call[i] == '-' {
        i
    } else {
        dash_at(call, i + 1)
    }
}

/// Callsign without SSID suffix.
pub open spec fn base_of(call: Seq<char>) -> Seq<char> {
    call.take(dash_at(call, 0))
}

/// `word` alone or followed by one digit.
pub open spec fn word_and_digit(base: Seq<char>, word: Seq<char>) -> bool {
    ||| base == word
    ||| base.len() == word.len() + 1 && base.drop_last() == word && text::is_digit(base.last())
}

/// A WIDEn or TRACEn routing alias.
pub open spec fn wide_trace(base: Seq<char>) -> bool {
    word_and_digit(base, "WIDE"@) || word_and_digit(base, "TRACE"@)
}

/// A path entry that is a routing alias or a gateway annotation, not a station.
pub open spec fn aprs_alias(call: Seq<char>) -> bool {
    let base = base_of(call);
    ||| wide_trace(base)
    ||| base == "RELAY"@
    ||| base == "ECHO"@
    ||| base == "GATE"@
    ||| base == "NOGATE"@
    ||| base == "RFONLY"@
    ||| base == "TCPIP"@
    ||| base == "TCPXX"@
    ||| base == "IGATECALL"@
}

impl FrameView {
    /// No digipeater has repeated the frame.
    pub open spec fn heard_direct(self) -> bool {
        forall|i: int| 0 <= i < self.via_heard.len() ==> !self.via_heard[i]
    }

    /// The last of the first `n` path entries that has repeated the frame and is a
    /// station, or the source.
    pub open spec fn heard_from(self, n: int) -> Seq<char>
        decreases n,
    {
        if n <= 0 {
            self.source
        } else if self.via_heard[n - 1] && !aprs_alias(self.via[n - 1]) {
            self.via[n - 1]
        } else {
            self.heard_from(n - 1)
        }
    }
}

/// A parsed UI frame.
#[derive(Debug, Clone)]
pub struct Ax25Frame {
    pub source: String,
    pub destination: String,
    /// Digipeater path entries.
    pub via: Vec<String>,
    /// For each path entry: true if that digipeater has repeated the frame.
    pub via_heard: Vec<bool>,
    /// Information field: everything behind control byte and PID.
    pub info: Vec<u8>,
}

impl View for Ax25Frame {
    type V = FrameView;

    open spec fn view(&self) -> FrameView {
        FrameView {
            source: self.source@,
            destination: self.destination@,
            via: Seq::new(self.via@.len(), |i: int| self.via@[i]@),
            via_heard: self.via_heard@,
            info: self.info@,
        }
    }
}

/// Field `i` of the frame as a slice.
fn field(data: &[u8], pos: usize) -> (r: &[u8])
    requires
        pos + 7 <= data@.len(),
    ensures
        r@ == data@.subrange(pos as int, pos + 7),
{
    assert(pos + 7 <= data.len());
    vstd::slice::slice_subrange(data, pos, pos + ADDRESS_LEN)
}

impl Ax25Frame {
    /// Decode a frame whose check sequence has been removed.
    ///
    /// Returns `None` if the frame is malformed, too short or not a UI frame.
    pub fn parse(data: &[u8]) -> (r: Option<Self>)
        ensures
            r is Some <==> parsed(data@) is Some,
            r matches Some(f) ==> f@ == parsed(data@)->0 && f.via@.len() == f.via_heard@.len(),
    {
        // Two addresses, control byte and PID.
        if data.len() < 16 {
            proof {
                if field_count(data@, 1) is Some {
                    lemma_field_count(data@, 1);
                }
            }
            return None;
        }
        // A bad character in any address means that the frame was mis-decoded: refuse
        // the whole frame rather than pass garbage callsigns on.
        let (destination, _) = match decode_address(field(data, 0)) {
            Some(a) => a,
            None => {
                proof {
                    assert(!callsign_ok(field_at(data@, 0)));
                    lemma_field_count(data@, 1);
                }
                return None;
            },
        };
        let (source, source_end) = match decode_address(field(data, 7)) {
            Some(a) => a,
            None => {
                proof {
                    assert(!callsign_ok(field_at(data@, 1)));
                    lemma_field_count(data@, 1);
                }
                return None;
            },
        };
        let mut path: Vec<String> = Vec::new();
        let mut via_heard: Vec<bool> = Vec::new();
        let mut pos: usize = 14;
        let mut last: bool = source_end;
        let ghost mut n: int = 2;
        assert(field_at(data@, 0) == data@.subrange(0, 7));
        assert(field_at(data@, 1) == data@.subrange(7, 14));
        while !last
            invariant
                n >= 2,
                pos == 7 * n,
                pos <= data@.len(),
                field_count(data@, 1) == if last {
                    Some(n)
                } else {
                    field_count(data@, n)
                },
                addresses_ok(data@, n),
                path@.len() == n - 2,
                via_heard@.len() == n - 2,
                forall|i: int|
                    0 <= i < n - 2 ==> (#[trigger] path@[i])@ == address_text(
                        field_at(data@, i + 2),
                    ),
                forall|i: int|
                    0 <= i < n - 2 ==> #[trigger] via_heard@[i] == heard_bit(
                        field_at(data@, i + 2),
                    ),
            decreases data@.len() - pos + (if last { 0int } else { 1 }),
        {
            if data.len() - pos < ADDRESS_LEN {
                return None;
            }
            match decode_via(field(data, pos)) {
                Some((call, end, heard)) => {
                    assert(field_at(data@, n) == data@.subrange(pos as int, pos + 7));
                    path.push(call);
                    via_heard.push(heard);
                    pos = pos + ADDRESS_LEN;
                    last = end;
                    proof {
                        n = n + 1;
                    }
                },
                None => {
                    proof {
                        assert(!callsign_ok(field_at(data@, n)));
                        if field_count(data@, n) is Some {
                            lemma_field_count(data@, n);
                        }
                    }
                    return None;
                },
            }
        }
        if data.len() - pos < 2 {
            return None;
        }
        if data[pos] != CONTROL_UI || data[pos + 1] != PID_NO_LAYER_3 {
            return None;
        }
        let info = vstd::slice::slice_to_vec(
            vstd::slice::slice_subrange(data, pos + 2, data.len()),
        );
        let r = Ax25Frame { source, destination, via: path, via_heard, info };
        assert(r@ =~~= parsed(data@)->0);
        Some(r)
    }

    /// True when no digipeater has repeated the frame: it came straight from its source.
    pub fn heard_direct(&self) -> (r: bool)
        ensures
            r == self@.heard_direct(),
    {
        let mut i: usize = 0;
        while i < self.via_heard.len()
            invariant
                i <= self.via_heard@.len(),
                forall|j: int| 0 <= j < i ==> !self.via_heard@[j],
            decreases self.via_heard@.len() - i,
        {
            if self.via_heard[i] {
                assert(self@.via_heard[i as int]);
                return false;
            }
            i = i + 1;
        }
        true
    }

    /// The callsign most likely behind the signal that was received.
    ///
    /// That is the last path entry that has repeated the frame and is a real station.
    /// Aliases do not count: any digipeater can claim a `WIDE2*` slot, so the transmitter
    /// is the real callsign before it. Without such an entry it is the source.
    pub fn heard_from(&self) -> (r: &str)
        requires
            self.via_heard@.len() <= self.via@.len(),
        ensures
            r@ == self@.heard_from(self.via_heard@.len() as int),
    {
        let mut i: usize = self.via_heard.len();
        while i > 0
            invariant
                i <= self.via_heard@.len() <= self.via@.len(),
                self@.heard_from(self.via_heard@.len() as int) == self@.heard_from(i as int),
            decreases i,
        {
            i = i - 1;
            assert(self@.via[i as int] == self.via@[i as int]@);
            if self.via_heard[i] && !is_aprs_alias(self.via[i].as_str()) {
                return self.via[i].as_str();
            }
        }
        self.source.as_str()
    }
}

/// The count includes the field that was asked about, and all of the counted fields
/// are there.
proof fn lemma_field_count(data: Seq<u8>, i: int)
    ensures
        field_count(data, i) matches Some(n) ==> n > i && 7 * n <= data.len(),
    decreases data.len() - 7 * i,
{
    if 7 * i + 7 <= data.len() && !end_bit(field_at(data, i)) {
        lemma_field_count(data, i + 1);
    }
}

/// Destination and source are always among the counted address fields, and all of them
/// are there.
pub proof fn law_address_fields_counted(data: Seq<u8>)
    ensures
        field_count(data, 1) matches Some(n) ==> n >= 2 && 7 * n <= data.len(),
{
    lemma_field_count(data, 1);
}

/// True if `call` is a routing alias or gateway annotation, not a real station.
///
/// The base callsign counts; an SSID suffix is ignored.
pub fn is_aprs_alias(call: &str) -> (r: bool)
    ensures
        r == aprs_alias(call@),
{
    let chars = text::chars_of(call);
    let mut n: usize = 0;
    while n < chars.len() && chars[n] != '-'
        invariant
            chars@ == call@,
            n <= chars@.len(),
            dash_at(call@, 0) == dash_at(call@, n as int),
        decreases chars@.len() - n,
    {
        n = n + 1;
    }
    let base = vstd::slice::slice_subrange(chars.as_slice(), 0, n);
    assert(base@ =~= base_of(call@));
    wide_trace_chars(base) || text::spells(base, "RELAY") || text::spells(base, "ECHO")
        || text::spells(base, "GATE") || text::spells(base, "NOGATE") || text::spells(
        base,
        "RFONLY",
    ) || text::spells(base, "TCPIP") || text::spells(base, "TCPXX") || text::spells(
        base,
        "IGATECALL",
    )
}

/// True if `base` is `WIDE` or `TRACE`, alone or followed by one digit.
pub fn is_wide_trace_alias(base: &str) -> (r: bool)
    ensures
        r == wide_trace(base@),
{
    wide_trace_chars(text::chars_of(base).as_slice())
}

fn wide_trace_chars(base: &[char]) -> (r: bool)
    ensures
        r == wide_trace(base@),
{
    proof {
        reveal_strlit("WIDE");
        reveal_strlit("TRACE");
    }
    if text::spells(base, "WIDE") || text::spells(base, "TRACE") {
        return true;
    }
    let n: usize = base.len();
    if n == 0 {
        return false;
    }
    let c: char = base[n - 1];
    if c < '0' || c > '9' {
        return false;
    }
    let word = vstd::slice::slice_subrange(base, 0, n - 1);
    assert(word@ =~= base@.drop_last());
    text::spells(word, "WIDE") || text::spells(word, "TRACE")
}

/// Decode an address field into a callsign and the end-of-address bit.
///
/// `None` if the field is not a valid callsign: a character other than an upper-case
/// letter or digit, data behind the padding, or nothing at all.
pub fn decode_address(bytes: &[u8]) -> (r: Option<(String, bool)>)
    requires
        bytes@.len() == 7,
    ensures
        r is Some <==> callsign_ok(bytes@),
        r matches Some((call, end)) ==> call@ == address_text(bytes@) && end == end_bit(bytes@),
{
    let mut call: String = String::new();
    let mut seen_pad: bool = false;
    let mut i: usize = 0;
    let ghost mut n: int = 0;
    while i < 6
        invariant
            bytes@.len() == 7,
            0 <= n <= i <= 6,
            base_len(bytes@, 0) == if seen_pad {
                n
            } else {
                base_len(bytes@, i as int)
            },
            !seen_pad ==> n == i,
            call@.len() == n,
            forall|j: int| 0 <= j < n ==> callsign_char((#[trigger] bytes@[j]) / 2),
            forall|j: int| 0 <= j < n ==> #[trigger] call@[j] == (bytes@[j] / 2) as char,
            forall|j: int| n <= j < i ==> (#[trigger] bytes@[j]) / 2 == 32,
        decreases 6 - i,
    {
        let c: u8 = bytes[i] / 2;
        if c == 32 {
            seen_pad = true;
        } else {
            if seen_pad {
                return None;
            }
            if !(65 <= c && c <= 90) && !(48 <= c && c <= 57) {
                proof {
                    lemma_base_len(bytes@, i + 1);
                }
                return None;
            }
            call.push(c as char);
            proof {
                n = n + 1;
            }
        }
        i = i + 1;
    }
    let ghost base = call@;
    assert(base_len(bytes@, 0) == n);
    if call.as_str().unicode_len() == 0 {
        return None;
    }
    let ssid: u8 = (bytes[6] / 2) % 16;
    if ssid != 0 {
        call.push('-');
        text::push_decimal(&mut call, ssid as u64);
    }
    assert(base =~= Seq::new(n as nat, |i: int| (bytes@[i] / 2) as char));
    assert(call@ =~= address_text(bytes@));
    Some((call, bytes[6] % 2 == 1))
}

proof fn lemma_base_len(field: Seq<u8>, i: int)
    requires
        0 <= i <= 6,
    ensures
        i <= base_len(field, i) <= 6,
    decreases 6 - i,
{
    if i < 6 && field[i] / 2 != 32 {
        lemma_base_len(field, i + 1);
    }
}

/// Decode a digipeater field: callsign, end-of-address bit, has-been-repeated bit.
pub fn decode_via(bytes: &[u8]) -> (r: Option<(String, bool, bool)>)
    requires
        bytes@.len() == 7,
    ensures
        r is Some <==> callsign_ok(bytes@),
        r matches Some((call, end, heard)) ==> call@ == address_text(bytes@) && end == end_bit(
            bytes@,
        ) && heard == heard_bit(bytes@),
{
    match decode_address(bytes) {
        Some((call, end)) => Some((call, end, bytes[6] >= 128)),
        None => None,
    }
}

} // verus!
