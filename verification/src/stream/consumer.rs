//! Lines that a consumer prints about a frame.

use vstd::prelude::*;

use crate::aprs;
use crate::stream::proto::{Ax25Meta, ViaHop};
use crate::text;

verus! {

/// Kinds of APRS payload.
#[derive(Debug, Clone, Copy, PartialEq, Eq, Structural)]
pub enum PayloadKind {
    Position,
    MicE,
    Message,
    Status,
    Object,
    Item,
    Weather,
    Telemetry,
    Capabilities,
    Query,
    GridLocator,
    Nmea,
    ThirdParty,
    UserDefined,
    /// A payload with a data type identifier that has no meaning.
    Unknown(u8),
    Other,
}

/// Short name of a payload kind.
pub open spec fn summary(kind: PayloadKind) -> Seq<char> {
    match kind {
        PayloadKind::Position => "Position"@,
        PayloadKind::MicE => "Mic-E position"@,
        PayloadKind::Message => "Message"@,
        PayloadKind::Status => "Status"@,
        PayloadKind::Object => "Object"@,
        PayloadKind::Item => "Item"@,
        PayloadKind::Weather => "Weather"@,
        PayloadKind::Telemetry => "Telemetry"@,
        PayloadKind::Capabilities => "Capabilities"@,
        PayloadKind::Query => "Query"@,
        PayloadKind::GridLocator => "GridLocator"@,
        PayloadKind::Nmea => "NMEA"@,
        PayloadKind::ThirdParty => "ThirdParty"@,
        PayloadKind::UserDefined => "UserDefined"@,
        PayloadKind::Unknown(dti) => "Unknown(dti="@ + seq![dti as char] + ")"@,
        PayloadKind::Other => "Other"@,
    }
}

/// The first `n` hops of a path, separated by commas. An asterisk marks those that have
/// repeated the frame.
pub open spec fn hops_text(hops: Seq<ViaHop>, n: int) -> Seq<char>
    decreases n,
{
    if n <= 0 {
        Seq::empty()
    } else {
        hops_text(hops, n - 1) + (if n > 1 {
            seq![',']
        } else {
            Seq::<char>::empty()
        }) + hops[n - 1].call@ + (if hops[n - 1].heard {
            seq!['*']
        } else {
            Seq::<char>::empty()
        })
    }
}

/// A digipeater path as text.
pub open spec fn path_shown(hops: Seq<ViaHop>) -> Seq<char> {
    if hops.len() == 0 {
        "(none)"@
    } else {
        hops_text(hops, hops.len() as int)
    }
}

/// Number of information bytes that an offset leaves of a frame; `None` if the offset
/// lies outside.
pub open spec fn info_len(offset: Option<u32>, ax25_len: int) -> Option<int> {
    match offset {
        Some(o) if o <= ax25_len => Some(ax25_len - o),
        _ => None,
    }
}

/// A number, or a question mark.
pub open spec fn number_or_unknown(n: Option<int>) -> Seq<char> {
    match n {
        Some(v) => text::decimal(v as nat),
        None => "?"@,
    }
}

/// The line about the AX.25 framing.
pub open spec fn framing_line(m: Ax25Meta, ax25_len: int) -> Seq<char> {
    "    ax25: "@ + m.source@ + ">"@ + m.destination@ + " via ["@ + path_shown(m.via@)
        + "] direct="@ + flag_text(m.heard_direct) + " heard_from="@ + m.heard_from@
        + " dti="@ + dti_text(m.dti) + " info@"@ + number_or_unknown(
        match m.info_offset {
            Some(o) => Some(o as int),
            None => None,
        },
    ) + " len="@ + number_or_unknown(info_len(m.info_offset, ax25_len)) + " invalid="@
        + text::decimal(m.info_invalid_bytes as nat)
}

/// A truth value as text.
pub open spec fn flag_text(b: bool) -> Seq<char> {
    if b {
        "true"@
    } else {
        "false"@
    }
}

/// A data type identifier as text.
pub open spec fn dti_text(dti: Option<u8>) -> Seq<char> {
    match dti {
        Some(b) => "'"@ + seq![b as char] + "'"@,
        None => "none"@,
    }
}

/// The line for a packet: its encoded text, or its header if it could not be encoded.
pub open spec fn packet_line(
    encoded: Option<Seq<u8>>,
    from: Seq<char>,
    to: Seq<char>,
) -> Seq<char> {
    match encoded {
        Some(bytes) => aprs::text::rendered(bytes),
        None => from + ">"@ + to + " <unencodable info>"@,
    }
}

/// Show a packet as a text line. Information fields can hold bytes that are not UTF-8;
/// they show as replacement characters.
pub fn tnc2(encoded: Option<&[u8]>, from: &str, to: &str) -> (r: String)
    ensures
        r@ == packet_line(
            match encoded {
                Some(b) => Some(b@),
                None => None,
            },
            from@,
            to@,
        ),
{
    match encoded {
        Some(bytes) => aprs::text::render_bytes(bytes),
        None => {
            let mut s: String = text::owned(from);
            text::push_text(&mut s, ">");
            text::push_text(&mut s, to);
            text::push_text(&mut s, " <unencodable info>");
            s
        },
    }
}

/// A short, human-friendly name for each kind of payload.
pub fn payload_summary(kind: PayloadKind) -> (r: String)
    ensures
        r@ == summary(kind),
{
    match kind {
        PayloadKind::Position => text::owned("Position"),
        PayloadKind::MicE => text::owned("Mic-E position"),
        PayloadKind::Message => text::owned("Message"),
        PayloadKind::Status => text::owned("Status"),
        PayloadKind::Object => text::owned("Object"),
        PayloadKind::Item => text::owned("Item"),
        PayloadKind::Weather => text::owned("Weather"),
        PayloadKind::Telemetry => text::owned("Telemetry"),
        PayloadKind::Capabilities => text::owned("Capabilities"),
        PayloadKind::Query => text::owned("Query"),
        PayloadKind::GridLocator => text::owned("GridLocator"),
        PayloadKind::Nmea => text::owned("NMEA"),
        PayloadKind::ThirdParty => text::owned("ThirdParty"),
        PayloadKind::UserDefined => text::owned("UserDefined"),
        PayloadKind::Unknown(dti) => {
            let mut s: String = text::owned("Unknown(dti=");
            s.push(dti as char);
            text::push_text(&mut s, ")");
            assert(s@ =~= summary(kind));
            s
        },
        PayloadKind::Other => text::owned("Other"),
    }
}

/// Render the digipeater path of a frame.
pub fn render_via(m: &Ax25Meta) -> (r: String)
    ensures
        r@ == path_shown(m.via@),
{
    if m.via.len() == 0 {
        return text::owned("(none)");
    }
    let mut s: String = String::new();
    let mut i: usize = 0;
    while i < m.via.len()
        invariant
            i <= m.via@.len(),
            s@ == hops_text(m.via@, i as int),
        decreases m.via@.len() - i,
    {
        if i > 0 {
            s.push(',');
        }
        text::push_text(&mut s, m.via[i].call.as_str());
        if m.via[i].heard {
            s.push('*');
        }
        i = i + 1;
        assert(s@ =~= hops_text(m.via@, i as int));
    }
    s
}

fn push_flag(s: &mut String, b: bool)
    ensures
        final(s)@ == old(s)@ + flag_text(b),
{
    if b {
        text::push_text(s, "true");
    } else {
        text::push_text(s, "false");
    }
}

fn push_dti(s: &mut String, dti: Option<u8>)
    ensures
        final(s)@ == old(s)@ + dti_text(dti),
{
    let ghost before = s@;
    match dti {
        Some(b) => {
            text::push_text(s, "'");
            s.push(b as char);
            text::push_text(s, "'");
            assert(s@ =~= before + dti_text(dti));
        },
        None => text::push_text(s, "none"),
    }
}

fn push_number(s: &mut String, n: Option<u64>)
    ensures
        final(s)@ == old(s)@ + number_or_unknown(
            match n {
                Some(v) => Some(v as int),
                None => None,
            },
        ),
{
    match n {
        Some(v) => text::push_decimal(s, v),
        None => text::push_text(s, "?"),
    }
}

/// Number of information bytes that the recorded offset leaves.
pub fn info_bytes(m: &Ax25Meta, ax25_len: usize) -> (r: Option<u64>)
    ensures
        (match r {
            Some(v) => Some(v as int),
            None => None,
        }) == info_len(m.info_offset, ax25_len as int),
{
    match m.info_offset {
        Some(o) => if o as u64 <= ax25_len as u64 {
            Some(ax25_len as u64 - o as u64)
        } else {
            None
        },
        None => None,
    }
}

/// Describe the AX.25 framing of a frame with `ax25_len` raw bytes.
pub fn describe_framing(m: &Ax25Meta, ax25_len: usize) -> (r: String)
    ensures
        r@ == framing_line(*m, ax25_len as int),
{
    let mut s: String = String::new();
    text::push_text(&mut s, "    ax25: ");
    assert(s@ =~= "    ax25: "@);
    text::push_text(&mut s, m.source.as_str());
    text::push_text(&mut s, ">");
    text::push_text(&mut s, m.destination.as_str());
    text::push_text(&mut s, " via [");
    let path = render_via(m);
    text::push_text(&mut s, path.as_str());
    text::push_text(&mut s, "] direct=");
    push_flag(&mut s, m.heard_direct);
    text::push_text(&mut s, " heard_from=");
    text::push_text(&mut s, m.heard_from.as_str());
    text::push_text(&mut s, " dti=");
    push_dti(&mut s, m.dti);
    text::push_text(&mut s, " info@");
    let offset: Option<u64> = match m.info_offset {
        Some(o) => Some(o as u64),
        None => None,
    };
    push_number(&mut s, offset);
    text::push_text(&mut s, " len=");
    push_number(&mut s, info_bytes(m, ax25_len));
    text::push_text(&mut s, " invalid=");
    text::push_decimal(&mut s, m.info_invalid_bytes as u64);
    s
}

/// A path is shown hop by hop: each callsign, with an asterisk if that digipeater has repeated
/// the frame, and a comma between one and the next.
pub proof fn law_path_grows(hops: Seq<ViaHop>, hop: ViaHop)
    ensures
        path_shown(Seq::<ViaHop>::empty()) == "(none)"@,
        ({
            let shown = hop.call@ + if hop.heard {
                seq!['*']
            } else {
                Seq::<char>::empty()
            };
            path_shown(hops.push(hop)) == if hops.len() == 0 {
                shown
            } else {
                path_shown(hops) + seq![','] + shown
            }
        }),
{
    let n = hops.len() as int;
    lemma_hops_prefix(hops.push(hop), hops, n);
    let shown = hop.call@ + if hop.heard {
        seq!['*']
    } else {
        Seq::<char>::empty()
    };
    if n == 0 {
        assert(path_shown(hops.push(hop)) =~= shown);
    } else {
        assert(path_shown(hops.push(hop)) =~= path_shown(hops) + seq![','] + shown);
    }
}

proof fn lemma_hops_prefix(a: Seq<ViaHop>, b: Seq<ViaHop>, n: int)
    requires
        0 <= n <= a.len(),
        n <= b.len(),
        forall|i: int| 0 <= i < n ==> #[trigger] a[i] == b[i],
    ensures
        hops_text(a, n) == hops_text(b, n),
    decreases n,
{
    if n > 0 {
        lemma_hops_prefix(a, b, n - 1);
        assert(a[n - 1] == b[n - 1]);
    }
}

/// Offset and number of information bytes make up the frame; there is no number where the
/// offset is unknown or lies outside.
pub proof fn law_info_is_the_rest(offset: Option<u32>, ax25_len: int)
    requires
        ax25_len >= 0,
    ensures
        ({
            let n = info_len(offset, ax25_len);
            &&& n is Some ==> n->0 >= 0 && offset is Some && offset->0 + n->0 == ax25_len
            &&& n is None ==> offset is None || offset->0 > ax25_len
        }),
{
}

/// The line names the source, then the destination, then the path; then whether the frame
/// came direct and from which station; then the identifier, offset and length of the
/// information field; then the number of its invalid bytes.
pub proof fn law_framing_line(m: Ax25Meta, ax25_len: int)
    requires
        ax25_len >= 0,
    ensures
        ({
            let direct = if m.heard_direct {
                "true"@
            } else {
                "false"@
            };
            let dti = if m.dti is Some {
                seq!['\'', m.dti->0 as char, '\'']
            } else {
                "none"@
            };
            let offset = if m.info_offset is Some {
                text::decimal(m.info_offset->0 as nat)
            } else {
                "?"@
            };
            let length = if m.info_offset is Some && m.info_offset->0 <= ax25_len {
                text::decimal((ax25_len - m.info_offset->0) as nat)
            } else {
                "?"@
            };
            framing_line(m, ax25_len) == "    ax25: "@ + m.source@ + ">"@ + m.destination@
                + " via ["@ + path_shown(m.via@) + "] direct="@ + direct + " heard_from="@
                + m.heard_from@ + " dti="@ + dti + " info@"@ + offset + " len="@ + length
                + " invalid="@ + text::decimal(m.info_invalid_bytes as nat)
        }),
{
    reveal_strlit("'");
    if m.dti is Some {
        assert(dti_text(m.dti) =~= seq!['\'', m.dti->0 as char, '\'']);
    }
}

/// A packet whose encoding is text is shown as that text, and one without an encoding by its
/// two stations.
pub proof fn law_packet_line(line: Seq<char>, from: Seq<char>, to: Seq<char>)
    ensures
        packet_line(Some(vstd::utf8::encode_utf8(line)), from, to) == line,
        packet_line(None, from, to) == from + seq!['>'] + to + " <unencodable info>"@,
{
    aprs::text::law_text_round_trip(line);
    reveal_strlit(">");
    assert(">"@ =~= seq!['>']);
}

/// Every kind is shown by its own name; the name of a kind without a meaning holds its
/// identifier.
pub proof fn law_kinds_are_named(dti: u8)
    ensures
        summary(PayloadKind::Position) == "Position"@ && summary(PayloadKind::MicE)
            == "Mic-E position"@ && summary(PayloadKind::Message) == "Message"@,
        summary(PayloadKind::Status) == "Status"@ && summary(PayloadKind::Object) == "Object"@
            && summary(PayloadKind::Item) == "Item"@ && summary(PayloadKind::Weather)
            == "Weather"@,
        summary(PayloadKind::Telemetry) == "Telemetry"@ && summary(PayloadKind::Capabilities)
            == "Capabilities"@ && summary(PayloadKind::Query) == "Query"@,
        summary(PayloadKind::GridLocator) == "GridLocator"@ && summary(PayloadKind::Nmea)
            == "NMEA"@ && summary(PayloadKind::ThirdParty) == "ThirdParty"@,
        summary(PayloadKind::UserDefined) == "UserDefined"@ && summary(PayloadKind::Other)
            == "Other"@,
        summary(PayloadKind::Unknown(dti)) == "Unknown(dti="@.push(dti as char) + seq![')'],
{
    reveal_strlit(")");
    assert(summary(PayloadKind::Unknown(dti)) =~= "Unknown(dti="@.push(dti as char) + seq![')']);
}

} // verus!
