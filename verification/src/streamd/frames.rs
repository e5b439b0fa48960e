//! From decoded packets to published frames.

use vstd::prelude::*;

use crate::ax25::frame;
use crate::hdlc::framer;
use crate::pipeline::stream_decoder::ModemPacket;
use crate::stream::proto;
use crate::stream::proto::{AprsFrame, Ax25Meta, CaptureMeta, RfMeta, ViaHop};
use crate::text;

verus! {

/// What the `aprs_decode` crate reports about bytes that it cannot parse.
#[verifier::external_type_specification]
#[verifier::external_body]
pub struct ExAprsError(aprs_decode::AprsError);

/// The packets that `AprsPacket::decode_ax25` of the `aprs_decode` crate may return for a
/// frame; none if the frame does not parse.
pub uninterp spec fn ax25_packets(raw: Seq<u8>) -> Set<aprs_decode::AprsPacket>;

/// `AprsPacket::decode_ax25` parses a raw AX.25 frame. Whether it succeeds depends on the
/// bytes alone. What it then returns is one of the packets for those bytes: speeds, ranges
/// and altitudes of compressed positions are powers in floating point, whose last digits
/// may differ from one machine to another, so which of them is left unsaid. It decodes
/// third-party packets inside each other by recursion, so the length of its input is
/// limited to that of the longest frame.
pub assume_specification[ aprs_decode::AprsPacket::decode_ax25 ](input: &[u8]) -> (r: Result<
    aprs_decode::AprsPacket,
    aprs_decode::AprsError,
>)
    requires
        input@.len() <= 512,
    ensures
        match r {
            Ok(p) => ax25_packets(input@).contains(p),
            Err(_) => ax25_packets(input@) == Set::<aprs_decode::AprsPacket>::empty(),
        },
;

/// The parsed packet belongs to the frame: it is one that the frame parses as, and there
/// is none exactly if the frame does not parse.
pub open spec fn parsed_from(parsed: Option<aprs_decode::AprsPacket>, raw: Seq<u8>) -> bool {
    match parsed {
        Some(p) => ax25_packets(raw).contains(p),
        None => ax25_packets(raw) == Set::<aprs_decode::AprsPacket>::empty(),
    }
}

/// Where the information field starts: it is the tail of the frame.
pub open spec fn offset_of(ax25_len: int, info_len: int) -> Option<u32> {
    if info_len <= ax25_len {
        Some(((ax25_len - info_len) % 0x1_0000_0000) as u32)
    } else {
        None
    }
}

/// Locate the information field. `None` in the impossible case that it is longer than
/// the frame.
pub fn info_offset(ax25_len: usize, info_len: usize) -> (r: Option<u32>)
    ensures
        r == offset_of(ax25_len as int, info_len as int),
{
    if info_len <= ax25_len {
        Some(((ax25_len - info_len) as u64 % 0x1_0000_0000) as u32)
    } else {
        None
    }
}

/// Path entries and their flags as hops, as far as there are both.
pub open spec fn is_zip(hops: Seq<ViaHop>, calls: Seq<String>, heard: Seq<bool>) -> bool {
    &&& hops.len() == if calls.len() <= heard.len() {
        calls.len()
    } else {
        heard.len()
    }
    &&& forall|i: int|
        0 <= i < hops.len() ==> (#[trigger] hops[i]).call@ == calls[i]@ && hops[i].heard
            == heard[i]
}

/// Put path entries and their flags together.
pub fn zip_via(calls: &[String], heard: &[bool]) -> (r: Vec<ViaHop>)
    ensures
        is_zip(r@, calls@, heard@),
{
    let mut r: Vec<ViaHop> = Vec::new();
    let mut i: usize = 0;
    while i < calls.len() && i < heard.len()
        invariant
            i <= calls@.len(),
            i <= heard@.len(),
            r@.len() == i,
            forall|j: int|
                0 <= j < i ==> (#[trigger] r@[j]).call@ == calls@[j]@ && r@[j].heard == heard@[j],
        decreases calls@.len() - i,
    {
        r.push(ViaHop { call: calls[i].clone(), heard: heard[i] });
        i = i + 1;
    }
    r
}

/// Milliseconds since the epoch as the schema has them: the low 64 bits, and zero for
/// times before the epoch.
pub fn epoch_millis(since_epoch: Option<u128>) -> (r: u64)
    ensures
        r == match since_epoch {
            Some(ms) => ms as int % 0x1_0000_0000_0000_0000,
            None => 0,
        },
{
    match since_epoch {
        Some(ms) => (ms % 0x1_0000_0000_0000_0000u128) as u64,
        None => 0,
    }
}

/// What the frame says about its AX.25 framing agrees with the packet.
pub open spec fn meta_of(m: Ax25Meta, pkt: ModemPacket) -> bool {
    &&& m.source@ == pkt.source@
    &&& m.destination@ == pkt.destination@
    &&& is_zip(m.via@, pkt.via@, pkt.via_heard@)
    &&& m.heard_direct == pkt.heard_direct
    &&& m.heard_from@ == pkt.heard_from@
    &&& m.dti == pkt.dti
    &&& m.info_offset == offset_of(pkt.raw_ax25@.len() as int, pkt.info@.len() as int)
    &&& m.info_invalid_bytes == pkt.info_invalid_bytes as int % 0x1_0000_0000
}

/// The frame is the one to publish for a packet.
pub open spec fn publishes(
    f: AprsFrame,
    pkt: ModemPacket,
    receiver: Seq<char>,
    decoder: Seq<char>,
    snr_db: Option<u32>,
    slicer_gains: Seq<u32>,
    parsed: Option<aprs_decode::AprsPacket>,
) -> bool {
    &&& f.version == proto::PROTOCOL_VERSION
    &&& f.capture.received_at_ms == match pkt.received_at {
        Some(ms) => ms as int % 0x1_0000_0000_0000_0000,
        None => 0,
    }
    &&& f.capture.receiver matches Some(s) && s@ == receiver
    &&& f.capture.decoder matches Some(s) && s@ == decoder
    &&& f.capture.ssrc == Some(pkt.ssrc)
    &&& f.rf.frequency_hz == Some((pkt.ssrc * 1000) as u64)
    &&& f.rf.snr_db == snr_db
    &&& f.rf.audio_level == Some(
        proto::AudioLevel {
            rec: pkt.audio_level.rec,
            mark: pkt.audio_level.mark,
            space: pkt.audio_level.space,
        },
    )
    &&& f.rf.slicer_hits == Some(pkt.slicer_hits)
    &&& f.rf.slicer_mask == Some(pkt.slicer_mask)
    &&& f.rf.slicer_gains matches Some(g) && g@ == slicer_gains
    &&& f.crc_ok
    &&& f.ax25@ == pkt.raw_ax25@
    &&& f.ax25_meta matches Some(m) && meta_of(m, pkt)
    &&& f.parsed == parsed
}

/// The AX.25 metadata of a frame says what its own raw bytes say.
pub open spec fn true_to_bytes(f: AprsFrame) -> bool {
    &&& frame::parsed(f.ax25@) matches Some(p)
    &&& f.ax25_meta matches Some(m)
    &&& m.source@ == p.source
    &&& m.destination@ == p.destination
    &&& m.via@.len() == p.via.len()
    &&& forall|i: int|
        0 <= i < p.via.len() ==> (#[trigger] m.via@[i]).call@ == p.via[i] && m.via@[i].heard
            == p.via_heard[i]
    &&& m.heard_direct == p.heard_direct()
    &&& m.heard_from@ == p.heard_from(p.via_heard.len() as int)
    &&& m.dti == if p.info.len() == 0 {
        None
    } else {
        Some(p.info.first())
    }
    &&& m.info_offset matches Some(o)
    &&& o <= f.ax25@.len()
    &&& f.ax25@.skip(o as int) == p.info
    &&& m.info_invalid_bytes == crate::aprs::text::suspect(p.info)
}

/// Assemble the frame for a packet whose payload parsed as given.
///
/// The channel identifier is the frequency in kHz. Packets come only from frames whose
/// check sequence held.
pub fn assemble_frame(
    pkt: &ModemPacket,
    receiver: &str,
    decoder: &str,
    snr_db: Option<u32>,
    slicer_gains: &[u32],
    parsed: Option<aprs_decode::AprsPacket>,
) -> (r: AprsFrame)
    ensures
        publishes(r, *pkt, receiver@, decoder@, snr_db, slicer_gains@, parsed),
        pkt@.tells_of_its_bytes() && pkt.raw_ax25@.len() < 0x1_0000_0000 ==> true_to_bytes(r),
{
    let meta = Ax25Meta {
        source: pkt.source.clone(),
        destination: pkt.destination.clone(),
        via: zip_via(pkt.via.as_slice(), pkt.via_heard.as_slice()),
        heard_direct: pkt.heard_direct,
        heard_from: pkt.heard_from.clone(),
        dti: pkt.dti,
        info_offset: info_offset(pkt.raw_ax25.len(), pkt.info.len()),
        info_invalid_bytes: (pkt.info_invalid_bytes as u64 % 0x1_0000_0000) as u32,
    };
    let capture = CaptureMeta {
        received_at_ms: epoch_millis(pkt.received_at),
        receiver: Some(text::owned(receiver)),
        decoder: Some(text::owned(decoder)),
        ssrc: Some(pkt.ssrc),
    };
    let rf = RfMeta {
        frequency_hz: Some(pkt.ssrc as u64 * 1000),
        snr_db,
        audio_level: Some(
            proto::AudioLevel {
                rec: pkt.audio_level.rec,
                mark: pkt.audio_level.mark,
                space: pkt.audio_level.space,
            },
        ),
        slicer_hits: Some(pkt.slicer_hits),
        slicer_mask: Some(pkt.slicer_mask),
        slicer_gains: Some(vstd::slice::slice_to_vec(slicer_gains)),
    };
    let ax25 = vstd::slice::slice_to_vec(pkt.raw_ax25.as_slice());
    let r = AprsFrame::new(capture, rf, true, ax25, Some(meta), parsed);
    proof {
        if pkt@.tells_of_its_bytes() && pkt.raw_ax25@.len() < 0x1_0000_0000 {
            law_metadata_is_true_to_bytes(
                r,
                *pkt,
                receiver@,
                decoder@,
                snr_db,
                slicer_gains@,
                parsed,
            );
        }
    }
    r
}

/// Parse the payload of a packet and assemble its frame. A frame whose payload does not
/// parse is published all the same.
pub fn build_frame(
    pkt: &ModemPacket,
    receiver: &str,
    decoder: &str,
    snr_db: Option<u32>,
    slicer_gains: &[u32],
) -> (r: AprsFrame)
    requires
        pkt.raw_ax25@.len() <= framer::MAX_FRAME_LEN,
    ensures
        publishes(
            r,
            *pkt,
            receiver@,
            decoder@,
            snr_db,
            slicer_gains@,
            r.parsed,
        ),
        parsed_from(r.parsed, pkt.raw_ax25@),
        pkt@.tells_of_its_bytes() ==> true_to_bytes(r),
{
    let parsed: Option<aprs_decode::AprsPacket> = match aprs_decode::AprsPacket::decode_ax25(
        pkt.raw_ax25.as_slice(),
    ) {
        Ok(p) => Some(p),
        Err(_) => None,
    };
    assemble_frame(pkt, receiver, decoder, snr_db, slicer_gains, parsed)
}

/// The frame for a packet from an RTP stream, where no signal-to-noise ratio is measured.
pub fn map_frame_rtp(pkt: &ModemPacket, receiver: &str, slicer_gains: &[u32]) -> (r: AprsFrame)
    requires
        pkt.raw_ax25@.len() <= framer::MAX_FRAME_LEN,
    ensures
        publishes(
            r,
            *pkt,
            receiver@,
            "aprs-rtp/0.2.0"@,
            None,
            slicer_gains@,
            r.parsed,
        ),
        parsed_from(r.parsed, pkt.raw_ax25@),
        pkt@.tells_of_its_bytes() ==> true_to_bytes(r),
{
    build_frame(pkt, receiver, "aprs-rtp/0.2.0", None, slicer_gains)
}

/// The frame for a packet from a tuner of our own, with its signal-to-noise ratio.
pub fn map_frame_sdr(pkt: &ModemPacket, receiver: &str, slicer_gains: &[u32]) -> (r: AprsFrame)
    requires
        pkt.raw_ax25@.len() <= framer::MAX_FRAME_LEN,
    ensures
        publishes(
            r,
            *pkt,
            receiver@,
            "aprs-sdr/0.1.0"@,
            match pkt.signal {
                Some(s) => Some(s.snr_db),
                None => None,
            },
            slicer_gains@,
            r.parsed,
        ),
        parsed_from(r.parsed, pkt.raw_ax25@),
        pkt@.tells_of_its_bytes() ==> true_to_bytes(r),
{
    let snr_db: Option<u32> = match pkt.signal {
        Some(s) => Some(s.snr_db),
        None => None,
    };
    build_frame(pkt, receiver, "aprs-sdr/0.1.0", snr_db, slicer_gains)
}

/// The recorded offset cuts exactly the information field out of the raw bytes, so a
/// consumer gets it byte for byte without parsing AX.25.
pub proof fn law_offset_cuts_info(raw: Seq<u8>)
    requires
        frame::parsed(raw) is Some,
        raw.len() < 0x1_0000_0000,
    ensures
        ({
            let info = frame::parsed(raw)->0.info;
            &&& offset_of(raw.len() as int, info.len() as int) matches Some(o)
            &&& raw.skip(o as int) == info
        }),
{
    let n = frame::field_count(raw, 1)->0;
    frame::law_address_fields_counted(raw);
    assert(frame::parsed(raw)->0.info == raw.skip(7 * n + 2));
}

/// For a packet that says what its bytes say, as every decoded packet does, the published
/// frame carries those bytes and its metadata says what they say: who sent the frame to
/// whom, over which digipeaters and which of them repeated it, from whom it was heard, and
/// where in the bytes the information field is and how it starts.
pub proof fn law_metadata_is_true_to_bytes(
    f: AprsFrame,
    pkt: ModemPacket,
    receiver: Seq<char>,
    decoder: Seq<char>,
    snr_db: Option<u32>,
    slicer_gains: Seq<u32>,
    parsed: Option<aprs_decode::AprsPacket>,
)
    requires
        publishes(f, pkt, receiver, decoder, snr_db, slicer_gains, parsed),
        pkt@.tells_of_its_bytes(),
        pkt.raw_ax25@.len() < 0x1_0000_0000,
    ensures
        true_to_bytes(f),
        f.ax25@ == pkt.raw_ax25@,
        frame::parsed(f.ax25@) is Some,
        f.ax25_meta is Some,
        ({
            let p = frame::parsed(f.ax25@)->0;
            let m = f.ax25_meta->0;
            &&& m.source@ == p.source
            &&& m.destination@ == p.destination
            &&& m.via@.len() == p.via.len()
            &&& forall|i: int| 0 <= i < p.via.len() ==> (#[trigger] m.via@[i]).call@ == p.via[i]
            &&& forall|i: int|
                0 <= i < p.via.len() ==> (#[trigger] m.via@[i]).heard == p.via_heard[i]
            &&& m.heard_direct == p.heard_direct()
            &&& m.heard_from@ == p.heard_from(p.via_heard.len() as int)
            &&& p.info.len() > 0 ==> m.dti == Some(p.info[0])
            &&& p.info.len() == 0 ==> m.dti is None
            &&& m.info_offset matches Some(o) && f.ax25@.skip(o as int) == p.info
            &&& m.info_invalid_bytes == crate::aprs::text::suspect(p.info)
        }),
{
    let raw = pkt.raw_ax25@;
    let p = frame::parsed(raw)->0;
    law_offset_cuts_info(raw);
    crate::aprs::text::law_suspect_bytes(p.info);
    let n = frame::field_count(raw, 1)->0;
    frame::law_address_fields_counted(raw);
    assert(p.info == raw.skip(7 * n + 2));
    assert(pkt@.frame.via.len() == pkt.via@.len());
    let m = f.ax25_meta->0;
    assert forall|i: int| 0 <= i < p.via.len() implies (#[trigger] m.via@[i]).call@ == p.via[i]
        && m.via@[i].heard == p.via_heard[i] by {
        assert(pkt@.frame.via[i] == pkt.via@[i]@);
    }
}

/// A published frame is stamped with the schema version and says of the reception what the
/// packet says: when, by what, on which channel, whose identifier is the frequency in kHz,
/// how strong, and by which slicers.
pub proof fn law_reception_is_published(
    f: AprsFrame,
    pkt: ModemPacket,
    receiver: Seq<char>,
    decoder: Seq<char>,
    snr_db: Option<u32>,
    slicer_gains: Seq<u32>,
    parsed: Option<aprs_decode::AprsPacket>,
)
    requires
        publishes(f, pkt, receiver, decoder, snr_db, slicer_gains, parsed),
    ensures
        f.version == 2,
        f.crc_ok,
        f.parsed == parsed,
        f.ax25@ == pkt.raw_ax25@,
        pkt.received_at is Some && pkt.received_at->0 < 0x1_0000_0000_0000_0000
            ==> f.capture.received_at_ms == pkt.received_at->0,
        pkt.received_at is None ==> f.capture.received_at_ms == 0,
        f.capture.receiver is Some && f.capture.receiver->0@ == receiver,
        f.capture.decoder is Some && f.capture.decoder->0@ == decoder,
        f.capture.ssrc == Some(pkt.ssrc),
        f.rf.frequency_hz is Some && f.rf.frequency_hz->0 == 1000 * pkt.ssrc,
        f.rf.snr_db == snr_db,
        f.rf.audio_level is Some,
        f.rf.audio_level->0.rec == pkt.audio_level.rec,
        f.rf.audio_level->0.mark == pkt.audio_level.mark,
        f.rf.audio_level->0.space == pkt.audio_level.space,
        f.rf.slicer_hits == Some(pkt.slicer_hits),
        f.rf.slicer_mask == Some(pkt.slicer_mask),
        f.rf.slicer_gains is Some && f.rf.slicer_gains->0@ == slicer_gains,
{
}

/// Offset and information field make up the frame, up to the width of the offset; there is no
/// offset exactly if the field would be longer than the frame.
pub proof fn law_offset_and_info_make_the_frame(ax25_len: int, info_len: int)
    requires
        ax25_len >= 0,
        info_len >= 0,
    ensures
        ({
            let r = offset_of(ax25_len, info_len);
            &&& r is None <==> info_len > ax25_len
            &&& r is Some ==> (r->0 + info_len - ax25_len) % 0x1_0000_0000 == 0
            &&& r is Some && ax25_len < 0x1_0000_0000 ==> r->0 + info_len == ax25_len
        }),
{
}

} // verus!
