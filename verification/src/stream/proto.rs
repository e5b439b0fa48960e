//! Schema of decoded frames.
//!
//! A frame is published once per datagram. It always carries the raw AX.25 bytes; the
//! parsed packet is there if the bytes could be parsed. Numbers that are not integers
//! are held as the bit patterns of single-precision values.

use vstd::prelude::*;

verus! {

/// A fully decoded APRS packet of the `aprs_decode` crate. The library carries it along
/// and does not look inside.
#[verifier::external_type_specification]
#[verifier::external_body]
pub struct ExAprsPacket(aprs_decode::AprsPacket);

/// Version of the schema. Bumped on any breaking change.
pub const PROTOCOL_VERSION: u8 = 2;

/// One decoded frame.
#[derive(Debug, Clone)]
pub struct AprsFrame {
    /// Schema version, always the first field.
    pub version: u8,
    /// When and by what the frame was received.
    pub capture: CaptureMeta,
    /// Signal quality.
    pub rf: RfMeta,
    /// Whether the check sequence of the frame held.
    pub crc_ok: bool,
    /// Raw AX.25 bytes without check sequence.
    pub ax25: Vec<u8>,
    /// Facts about the AX.25 framing, there even if the payload could not be parsed.
    pub ax25_meta: Option<Ax25Meta>,
    /// The parsed packet.
    pub parsed: Option<aprs_decode::AprsPacket>,
}

impl AprsFrame {
    /// A frame stamped with the current schema version.
    pub fn new(
        capture: CaptureMeta,
        rf: RfMeta,
        crc_ok: bool,
        ax25: Vec<u8>,
        ax25_meta: Option<Ax25Meta>,
        parsed: Option<aprs_decode::AprsPacket>,
    ) -> (r: Self)
        ensures
            r == (AprsFrame {
                version: PROTOCOL_VERSION,
                capture,
                rf,
                crc_ok,
                ax25,
                ax25_meta,
                parsed,
            }),
    {
        AprsFrame { version: PROTOCOL_VERSION, capture, rf, crc_ok, ax25, ax25_meta, parsed }
    }
}

/// Facts about the AX.25 framing.
#[derive(Debug, Clone)]
pub struct Ax25Meta {
    /// Source callsign.
    pub source: String,
    /// Destination callsign.
    pub destination: String,
    /// Digipeater path.
    pub via: Vec<ViaHop>,
    /// True if no digipeater has repeated the frame.
    pub heard_direct: bool,
    /// The station whose signal reached the receiver.
    pub heard_from: String,
    /// First byte of the information field.
    pub dti: Option<u8>,
    /// Where the information field starts in [`AprsFrame::ax25`].
    pub info_offset: Option<u32>,
    /// Number of information bytes that are almost certainly no payload.
    pub info_invalid_bytes: u32,
}

impl Default for Ax25Meta {
    fn default() -> (r: Self)
        ensures
            r.source@.len() == 0 && r.destination@.len() == 0 && r.heard_from@.len() == 0,
            r.via@.len() == 0,
            !r.heard_direct,
            r.dti is None,
            r.info_offset is None,
            r.info_invalid_bytes == 0,
    {
        Ax25Meta {
            source: String::new(),
            destination: String::new(),
            via: Vec::new(),
            heard_direct: false,
            heard_from: String::new(),
            dti: None,
            info_offset: None,
            info_invalid_bytes: 0,
        }
    }
}

/// One element of the digipeater path.
#[derive(Debug, Clone)]
pub struct ViaHop {
    /// Callsign.
    pub call: String,
    /// True if this digipeater has repeated the frame.
    pub heard: bool,
}

/// When and by what a frame was received.
#[derive(Debug, Clone)]
pub struct CaptureMeta {
    /// Time of reception in milliseconds since the epoch.
    pub received_at_ms: u64,
    /// Receiver or host.
    pub receiver: Option<String>,
    /// Decoder and its version.
    pub decoder: Option<String>,
    /// Audio channel.
    pub ssrc: Option<u32>,
}

/// Signal quality. What a receiver does not measure is `None`.
#[derive(Debug, Clone)]
pub struct RfMeta {
    /// Channel frequency in Hz.
    pub frequency_hz: Option<u64>,
    /// Signal-to-noise ratio in dB.
    pub snr_db: Option<u32>,
    /// Audio levels at decode time.
    pub audio_level: Option<AudioLevel>,
    /// Number of slicers that decoded the frame.
    pub slicer_hits: Option<u8>,
    /// Which slicers decoded the frame, one bit each.
    pub slicer_mask: Option<u16>,
    /// Gain of each slicer.
    pub slicer_gains: Option<Vec<u32>>,
}

impl Default for RfMeta {
    fn default() -> (r: Self)
        ensures
            r == (RfMeta {
                frequency_hz: None,
                snr_db: None,
                audio_level: None,
                slicer_hits: None,
                slicer_mask: None,
                slicer_gains: None,
            }),
    {
        RfMeta {
            frequency_hz: None,
            snr_db: None,
            audio_level: None,
            slicer_hits: None,
            slicer_mask: None,
            slicer_gains: None,
        }
    }
}

/// Audio levels at decode time.
#[derive(Debug, Clone, Copy, PartialEq, Eq, Structural)]
pub struct AudioLevel {
    /// Overall received level.
    pub rec: u8,
    /// Mark-tone envelope level.
    pub mark: u8,
    /// Space-tone envelope level.
    pub space: u8,
}

impl Default for AudioLevel {
    fn default() -> (r: Self)
        ensures
            r == (AudioLevel { rec: 0, mark: 0, space: 0 }),
    {
        AudioLevel { rec: 0, mark: 0, space: 0 }
    }
}

} // verus!
