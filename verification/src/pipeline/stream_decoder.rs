//! Decoding of one audio channel.
//!
//! Several slicers look at the same audio, each with a framer of its own, and often
//! more than one of them decodes a frame. Such sightings are merged into one packet,
//! and a frame that was emitted moments ago is not emitted again.

use vstd::prelude::*;

use crate::afsk::dpll::DemodBit;
use crate::aprs::text;
use crate::audio::{AudioLevel, SignalMetrics};
use crate::ax25::frame;
use crate::ax25::frame::Ax25Frame;
use crate::bits;
use crate::config::{DecoderConfig, FixBits};
use crate::hdlc::fec;
use crate::hdlc::framer::{HdlcDecoder, LinkState, MAX_FRAME_LEN, MIN_FRAME_LEN};
use crate::pipeline::delivery;

verus! {

/// A frame with the same bytes is not emitted again for this long, in nanoseconds.
///
/// Slicers finish a frame milliseconds apart, and stations repeat a packet after half
/// a minute at the earliest.
pub const DEDUP_WINDOW: u64 = 3_000_000_000;

/// Slicers fit in a 16-bit mask.
pub const MAX_SLICERS: usize = 16;

/// A frame that was decoded, and the slicers that decoded it.
#[verifier::ext_equal]
pub struct Sighting {
    /// Frame bytes without check sequence.
    pub raw: Seq<u8>,
    /// Bit `i` is set if slicer `i` decoded the frame.
    pub mask: u16,
}

/// A frame that was emitted, and when.
#[verifier::ext_equal]
pub struct Emitted {
    pub raw: Seq<u8>,
    pub at: u64,
}

/// The frame that a line level completes, if its check sequence holds (or can be
/// repaired) and it parses.
pub open spec fn frame_heard(link: LinkState, level: bool, fix_bits: FixBits) -> Option<Seq<u8>> {
    match link.completes(level) {
        Some(b) => match fec::validated(bits::bytes_of(b), fix_bits) {
            Some(raw) if frame::parsed(raw) is Some => Some(raw),
            _ => None,
        },
        None => None,
    }
}

/// Position of the sighting of `raw` at or after `i`, or the length.
pub open spec fn sighting_at(found: Seq<Sighting>, raw: Seq<u8>, i: int) -> int
    decreases found.len() - i,
{
    if i >= found.len() || found[i].raw == raw {
        i
    } else {
        sighting_at(found, raw, i + 1)
    }
}

/// The sightings with slicer `slice` added to that of `raw`.
pub open spec fn sighted(found: Seq<Sighting>, raw: Seq<u8>, slice: int) -> Seq<Sighting> {
    let bit = 1u16 << (slice as u16);
    let i = sighting_at(found, raw, 0);
    if i < found.len() {
        found.update(i, Sighting { raw, mask: found[i].mask | bit })
    } else {
        found.push(Sighting { raw, mask: bit })
    }
}

/// Progress through the bits of a block.
#[verifier::ext_equal]
pub struct Pass {
    /// State of each slicer's framer.
    pub links: Seq<LinkState>,
    /// Frames so far, in the order in which they were first decoded.
    pub found: Seq<Sighting>,
}

impl Pass {
    /// After one more bit. A bit of a slicer that has no framer is ignored.
    pub open spec fn step(self, b: DemodBit, fix_bits: FixBits) -> Pass {
        let k = b.slice as int;
        if k < self.links.len() {
            Pass {
                links: self.links.update(k, self.links[k].next(b.bit)),
                found: match frame_heard(self.links[k], b.bit, fix_bits) {
                    Some(raw) => sighted(self.found, raw, k),
                    None => self.found,
                },
            }
        } else {
            self
        }
    }

    /// After a sequence of bits.
    pub open spec fn run(self, data: Seq<DemodBit>, fix_bits: FixBits) -> Pass
        decreases data.len(),
    {
        if data.len() == 0 {
            self
        } else {
            self.run(data.drop_last(), fix_bits).step(data.last(), fix_bits)
        }
    }
}

/// Time from `at` to `now`; none if the clock shows less.
pub open spec fn elapsed(now: u64, at: u64) -> int {
    if now >= at {
        now - at
    } else {
        0
    }
}

/// The emissions that still count at time `now`.
pub open spec fn recent(emitted: Seq<Emitted>, now: u64) -> Seq<Emitted> {
    emitted.filter(|e: Emitted| elapsed(now, e.at) < DEDUP_WINDOW)
}

/// Some emission has these bytes.
pub open spec fn among(emitted: Seq<Emitted>, raw: Seq<u8>) -> bool {
    exists|i: int| 0 <= i < emitted.len() && (#[trigger] emitted[i]).raw == raw
}

/// No frame is listed twice.
pub open spec fn listed_once(emitted: Seq<Emitted>) -> bool {
    forall|i: int, j: int|
        0 <= i < j < emitted.len() ==> (#[trigger] emitted[i]).raw != (#[trigger] emitted[j]).raw
}

/// The sightings that are new.
pub open spec fn unseen(found: Seq<Sighting>, emitted: Seq<Emitted>) -> Seq<Sighting> {
    found.filter(|s: Sighting| !among(emitted, s.raw))
}

/// Bit `i` of a slicer mask.
pub open spec fn in_mask(mask: u16, i: int) -> bool {
    (mask >> (i as u16)) & 1u16 == 1u16
}

/// Number of slicers below `n` in a mask.
pub open spec fn mask_count(mask: u16, n: int) -> int
    decreases n,
{
    if n <= 0 {
        0
    } else {
        mask_count(mask, n - 1) + if in_mask(mask, n - 1) {
            1int
        } else {
            0
        }
    }
}

/// Lowest slicer in a mask at or above `i`.
pub open spec fn mask_first(mask: u16, i: int) -> int
    decreases MAX_SLICERS - i,
{
    if i >= MAX_SLICERS || in_mask(mask, i) {
        i
    } else {
        mask_first(mask, i + 1)
    }
}

/// What a packet says.
#[verifier::ext_equal]
pub struct PacketView {
    pub ssrc: u32,
    pub text: Seq<char>,
    pub raw_ax25: Seq<u8>,
    pub received_at: Option<u128>,
    pub first_slice: int,
    pub slicer_hits: int,
    pub audio_level: AudioLevel,
    pub frame: frame::FrameView,
    pub heard_direct: bool,
    pub heard_from: Seq<char>,
    pub slicer_mask: u16,
    pub dti: Option<u8>,
    pub info_invalid_bytes: int,
    pub signal: Option<SignalMetrics>,
}

impl PacketView {
    /// What the packet says of its frame is what its own bytes say.
    pub open spec fn tells_of_its_bytes(self) -> bool {
        &&& frame::parsed(self.raw_ax25) == Some(self.frame)
        &&& self.heard_direct == self.frame.heard_direct()
        &&& self.heard_from == self.frame.heard_from(self.frame.via_heard.len() as int)
        &&& self.dti == if self.frame.info.len() == 0 {
            None
        } else {
            Some(self.frame.info.first())
        }
        &&& self.info_invalid_bytes == text::suspect(self.frame.info)
    }
}

/// What is known of a block besides its bits.
#[derive(Debug, Clone, Copy)]
pub struct BlockInfo {
    /// Monotonic clock, in nanoseconds.
    pub now: u64,
    /// Wall clock, in milliseconds since the epoch; `None` before the epoch.
    pub received_at: Option<u128>,
    /// Audio levels at the end of the block.
    pub audio_level: AudioLevel,
    /// Signal quality measured by the source.
    pub signal: Option<SignalMetrics>,
}

/// The packet for a sighting.
pub open spec fn packet_for(ssrc: u32, s: Sighting, block: BlockInfo) -> PacketView {
    let f = frame::parsed(s.raw)->0;
    PacketView {
        ssrc,
        text: text::tnc2(f),
        raw_ax25: s.raw,
        received_at: block.received_at,
        first_slice: mask_first(s.mask, 0),
        slicer_hits: mask_count(s.mask, MAX_SLICERS as int),
        audio_level: block.audio_level,
        frame: f,
        heard_direct: f.heard_direct(),
        heard_from: f.heard_from(f.via_heard.len() as int),
        slicer_mask: s.mask,
        dti: if f.info.len() > 0 {
            Some(f.info[0])
        } else {
            None
        },
        info_invalid_bytes: text::suspect(f.info),
        signal: block.signal,
    }
}

/// A decoded APRS packet.
#[derive(Debug, Clone)]
pub struct ModemPacket {
    /// Channel identifier of the audio: its frequency in kHz.
    pub ssrc: u32,
    /// The frame as a text line.
    pub text: String,
    /// Frame bytes without check sequence.
    pub raw_ax25: Vec<u8>,
    /// Wall clock at decode time, in milliseconds since the epoch; `None` before it.
    pub received_at: Option<u128>,
    /// Lowest slicer that decoded the frame.
    pub first_slice: usize,
    /// Number of slicers that decoded the frame within the same block.
    pub slicer_hits: u8,
    /// Audio levels at decode time.
    pub audio_level: AudioLevel,
    /// Source callsign.
    pub source: String,
    /// Destination callsign.
    pub destination: String,
    /// Digipeater path.
    pub via: Vec<String>,
    /// For each path entry, whether that digipeater has repeated the frame.
    pub via_heard: Vec<bool>,
    /// True if no digipeater has repeated the frame.
    pub heard_direct: bool,
    /// The station whose signal reached the receiver.
    pub heard_from: String,
    /// The slicers that decoded the frame, one bit each.
    pub slicer_mask: u16,
    /// Data type identifier: the first byte of the information field.
    pub dti: Option<u8>,
    /// Information field.
    pub info: Vec<u8>,
    /// Number of bytes in `info` that are almost certainly no payload.
    pub info_invalid_bytes: usize,
    /// Signal quality measured by the source for the block.
    pub signal: Option<SignalMetrics>,
}

impl View for ModemPacket {
    type V = PacketView;

    open spec fn view(&self) -> PacketView {
        PacketView {
            ssrc: self.ssrc,
            text: self.text@,
            raw_ax25: self.raw_ax25@,
            received_at: self.received_at,
            first_slice: self.first_slice as int,
            slicer_hits: self.slicer_hits as int,
            audio_level: self.audio_level,
            frame: frame::FrameView {
                source: self.source@,
                destination: self.destination@,
                via: Seq::new(self.via@.len(), |i: int| self.via@[i]@),
                via_heard: self.via_heard@,
                info: self.info@,
            },
            heard_direct: self.heard_direct,
            heard_from: self.heard_from@,
            slicer_mask: self.slicer_mask,
            dti: self.dti,
            info_invalid_bytes: self.info_invalid_bytes as int,
            signal: self.signal,
        }
    }
}

/// Decoder state of one channel, as a value of mathematics.
#[verifier::ext_equal]
pub struct StreamView {
    pub ssrc: u32,
    pub fix_bits: FixBits,
    /// State of each slicer's framer.
    pub links: Seq<LinkState>,
    /// Recent emissions.
    pub emitted: Seq<Emitted>,
}

impl StreamView {
    /// Frames that a block's bits bring, in the order in which they were first decoded.
    pub open spec fn sightings(self, data: Seq<DemodBit>) -> Seq<Sighting> {
        Pass { links: self.links, found: Seq::empty() }.run(data, self.fix_bits).found
    }

    /// Those of them that are emitted.
    pub open spec fn news(self, data: Seq<DemodBit>, now: u64) -> Seq<Sighting> {
        unseen(self.sightings(data), recent(self.emitted, now))
    }

    /// State after a block.
    pub open spec fn after(self, data: Seq<DemodBit>, now: u64) -> StreamView {
        StreamView {
            links: Pass { links: self.links, found: Seq::empty() }.run(data, self.fix_bits).links,
            emitted: recent(self.emitted, now) + self.news(data, now).map_values(
                |s: Sighting| Emitted { raw: s.raw, at: now },
            ),
            ..self
        }
    }

    /// Packets that a block brings.
    pub open spec fn packets(self, data: Seq<DemodBit>, block: BlockInfo) -> Seq<PacketView> {
        self.news(data, block.now).map_values(|s: Sighting| packet_for(self.ssrc, s, block))
    }
}

#[derive(Debug, Clone)]
struct CacheEntry {
    raw: Vec<u8>,
    at: u64,
}

impl CacheEntry {
    spec fn emitted(self) -> Emitted {
        Emitted { raw: self.raw@, at: self.at }
    }
}

spec fn entries(cache: Seq<CacheEntry>) -> Seq<Emitted> {
    cache.map_values(|e: CacheEntry| e.emitted())
}

struct Candidate {
    raw: Vec<u8>,
    frame: Ax25Frame,
    mask: u16,
}

impl Candidate {
    spec fn sighting(self) -> Sighting {
        Sighting { raw: self.raw@, mask: self.mask }
    }

    spec fn wf(self) -> bool {
        &&& frame::parsed(self.raw@) == Some(self.frame@)
        &&& self.frame.via@.len() == self.frame.via_heard@.len()
        &&& MIN_FRAME_LEN <= self.raw@.len() + 2 <= MAX_FRAME_LEN
    }
}

spec fn sightings_of(found: Seq<Candidate>) -> Seq<Sighting> {
    found.map_values(|c: Candidate| c.sighting())
}

/// Byte strings are equal.
fn same_bytes(a: &Vec<u8>, b: &Vec<u8>) -> (r: bool)
    ensures
        r == (a@ == b@),
{
    if a.len() != b.len() {
        return false;
    }
    let mut i: usize = 0;
    while i < a.len()
        invariant
            a@.len() == b@.len(),
            i <= a@.len(),
            forall|j: int| 0 <= j < i ==> a@[j] == b@[j],
        decreases a@.len() - i,
    {
        if a[i] != b[i] {
            return false;
        }
        i = i + 1;
    }
    assert(a@ =~= b@);
    true
}

/// Decoding state for one channel.
pub struct StreamDecoder {
    ssrc: u32,
    hdlc: Vec<HdlcDecoder>,
    fix_bits: FixBits,
    dedup_cache: Vec<CacheEntry>,
}

impl View for StreamDecoder {
    type V = StreamView;

    closed spec fn view(&self) -> StreamView {
        StreamView {
            ssrc: self.ssrc,
            fix_bits: self.fix_bits,
            links: self.hdlc@.map_values(|h: HdlcDecoder| h@),
            emitted: entries(self.dedup_cache@),
        }
    }
}

impl StreamDecoder {
    /// What every operation keeps: the framers are sound, and no frame is listed twice
    /// among the recent emissions.
    pub closed spec fn wf(&self) -> bool {
        &&& self.hdlc@.len() <= MAX_SLICERS
        &&& forall|i: int| 0 <= i < self.hdlc@.len() ==> (#[trigger] self.hdlc@[i]).wf()
        &&& listed_once(self@.emitted)
    }

    /// What holds of every sound decoder: its slicers fit the mask, each framer is sound,
    /// and no frame is listed twice.
    pub proof fn lemma_wf(&self)
        requires
            self.wf(),
        ensures
            self@.links.len() <= MAX_SLICERS,
            forall|i: int| 0 <= i < self@.links.len() ==> (#[trigger] self@.links[i]).wf(),
            listed_once(self@.emitted),
    {
        assert forall|i: int| 0 <= i < self@.links.len() implies (
        #[trigger] self@.links[i]).wf() by {
            assert(self.hdlc@[i].wf());
            self.hdlc@[i].lemma_wf();
        }
    }

    /// A decoder with one idle framer per configured slicer and nothing emitted yet.
    pub fn new(ssrc: u32, cfg: &DecoderConfig) -> (r: Self)
        requires
            cfg.slicers <= MAX_SLICERS,
        ensures
            r.wf(),
            r@.ssrc == ssrc,
            r@.fix_bits == cfg.fix_bits,
            r@.links == Seq::new(
                cfg.slicers as nat,
                |i: int|
                    (LinkState { level: false, window: Seq::new(8, |j: int| false), bits: None }),
            ),
            r@.emitted == Seq::<Emitted>::empty(),
    {
        let mut hdlc: Vec<HdlcDecoder> = Vec::new();
        let mut i: usize = 0;
        while i < cfg.slicers
            invariant
                i <= cfg.slicers,
                hdlc@.len() == i,
                forall|j: int| 0 <= j < i ==> (#[trigger] hdlc@[j]).wf(),
                forall|j: int|
                    0 <= j < i ==> (#[trigger] hdlc@[j])@ == (LinkState {
                        level: false,
                        window: Seq::new(8, |j: int| false),
                        bits: None,
                    }),
            decreases cfg.slicers - i,
        {
            hdlc.push(HdlcDecoder::new(i));
            i = i + 1;
        }
        let r = StreamDecoder { ssrc, hdlc, fix_bits: cfg.fix_bits, dedup_cache: Vec::new() };
        assert(r@.links =~= Seq::new(
            cfg.slicers as nat,
            |i: int|
                (LinkState { level: false, window: Seq::new(8, |j: int| false), bits: None }),
        ));
        assert(r@.emitted =~= Seq::<Emitted>::empty());
        r
    }

    /// Drop emissions that no longer count.
    fn evict(&mut self, now: u64)
        requires
            old(self).wf(),
        ensures
            final(self).wf(),
            final(self)@ == (StreamView { emitted: recent(old(self)@.emitted, now), ..old(self)@ }),
    {
        let ghost all = self@.emitted;
        let ghost keep = |e: Emitted| elapsed(now, e.at) < DEDUP_WINDOW;
        let mut kept: Vec<CacheEntry> = Vec::new();
        let mut i: usize = 0;
        proof {
            reveal(Seq::filter);
            assert(entries(kept@) =~= all.take(0).filter(keep));
        }
        while i < self.dedup_cache.len()
            invariant
                i <= self.dedup_cache@.len(),
                all == entries(self.dedup_cache@),
                keep == (|e: Emitted| elapsed(now, e.at) < DEDUP_WINDOW),
                entries(kept@) == all.take(i as int).filter(keep),
                *self == *old(self),
            decreases self.dedup_cache@.len() - i,
        {
            let at: u64 = self.dedup_cache[i].at;
            let age: u64 = if now >= at {
                now - at
            } else {
                0
            };
            proof {
                reveal(Seq::filter);
                assert(all.take(i + 1).drop_last() =~= all.take(i as int));
                assert(all.take(i + 1).last() == self.dedup_cache@[i as int].emitted());
            }
            if age < DEDUP_WINDOW {
                let ghost before = kept@;
                let raw = vstd::slice::slice_to_vec(self.dedup_cache[i].raw.as_slice());
                kept.push(CacheEntry { raw, at });
                assert(entries(kept@) =~= entries(before).push(
                    self.dedup_cache@[i as int].emitted(),
                ));
            }
            i = i + 1;
        }
        assert(all.take(i as int) =~= all);
        self.dedup_cache = kept;
        proof {
            delivery::lemma_recent_listed_once(all, now);
        }
    }

    /// True if the bytes were emitted recently.
    fn is_cached(&self, raw: &Vec<u8>) -> (r: bool)
        ensures
            r == among(self@.emitted, raw@),
    {
        let mut i: usize = 0;
        while i < self.dedup_cache.len()
            invariant
                i <= self.dedup_cache@.len(),
                forall|j: int| 0 <= j < i ==> (#[trigger] self@.emitted[j]).raw != raw@,
            decreases self.dedup_cache@.len() - i,
        {
            assert(self@.emitted[i as int] == self.dedup_cache@[i as int].emitted());
            if same_bytes(&self.dedup_cache[i].raw, raw) {
                return true;
            }
            i = i + 1;
        }
        false
    }

    /// Feed one bit to its slicer's framer; returns the frame it completes, if the frame
    /// is good.
    fn hear(&mut self, b: &DemodBit) -> (r: Option<(Vec<u8>, Ax25Frame)>)
        requires
            old(self).wf(),
            b.slice < old(self)@.links.len(),
        ensures
            final(self).wf(),
            final(self)@ == (StreamView {
                links: old(self)@.links.update(
                    b.slice as int,
                    old(self)@.links[b.slice as int].next(b.bit),
                ),
                ..old(self)@
            }),
            r is Some <==> frame_heard(
                old(self)@.links[b.slice as int],
                b.bit,
                old(self)@.fix_bits,
            ) is Some,
            r matches Some((raw, f)) ==> {
                &&& Some(raw@) == frame_heard(
                    old(self)@.links[b.slice as int],
                    b.bit,
                    old(self)@.fix_bits,
                )
                &&& frame::parsed(raw@) == Some(f@)
                &&& f.via@.len() == f.via_heard@.len()
                &&& MIN_FRAME_LEN <= raw@.len() + 2 <= MAX_FRAME_LEN
            },
    {
        let ghost links = self@.links;
        let ghost k = b.slice as int;
        let pushed = self.hdlc[b.slice].push(b);
        assert(self@.links =~= links.update(k, links[k].next(b.bit)));
        match pushed {
            Some(raw) => {
                proof {
                    bits::lemma_bytes_of(raw.data@);
                    fec::law_validated_len(raw.data@, self.fix_bits);
                }
                match fec::try_validate(&raw, self.fix_bits) {
                    Some(valid) => match Ax25Frame::parse(valid.data.as_slice()) {
                        Some(f) => Some((valid.data, f)),
                        None => None,
                    },
                    None => None,
                }
            },
            None => None,
        }
    }

    /// Decode one block of demodulated bits.
    ///
    /// Slicers that decode the same frame in the same block are merged into one packet,
    /// and frames that were emitted within the last three seconds are suppressed.
    /// Packets come in the order in which their frames were first decoded.
    pub fn process_block(&mut self, data: &[DemodBit], block: BlockInfo) -> (r: Vec<ModemPacket>)
        requires
            old(self).wf(),
        ensures
            final(self).wf(),
            final(self)@ == old(self)@.after(data@, block.now),
            r@.map_values(|p: ModemPacket| p@) == old(self)@.packets(data@, block),
            forall|i: int|
                0 <= i < r@.len() ==> MIN_FRAME_LEN <= (#[trigger] r@[i]).raw_ax25@.len() + 2
                    <= MAX_FRAME_LEN,
            forall|i: int| 0 <= i < r@.len() ==> (#[trigger] r@[i])@.tells_of_its_bytes(),
    {
        let ghost start = self@;
        let ghost fix = self@.fix_bits;
        let ghost pass = Pass { links: start.links, found: Seq::empty() };
        self.evict(block.now);
        let ghost fresh = self@.emitted;
        let mut found: Vec<Candidate> = Vec::new();
        let mut i: usize = 0;
        assert(sightings_of(found@) =~= Seq::<Sighting>::empty());
        while i < data.len()
            invariant
                i <= data@.len(),
                self.wf(),
                fix == start.fix_bits,
                self@.ssrc == start.ssrc,
                self@.fix_bits == fix,
                self@.emitted == fresh,
                self@.links == pass.run(data@.take(i as int), fix).links,
                sightings_of(found@) == pass.run(data@.take(i as int), fix).found,
                forall|j: int| 0 <= j < found@.len() ==> (#[trigger] found@[j]).wf(),
            decreases data@.len() - i,
        {
            let b = &data[i];
            let ghost before = pass.run(data@.take(i as int), fix);
            proof {
                assert(data@.take(i + 1).drop_last() =~= data@.take(i as int));
                assert(data@.take(i + 1).last() == *b);
            }
            if b.slice < self.hdlc.len() {
                assert(self.hdlc@.len() == self@.links.len());
                match self.hear(b) {
                    Some((raw, f)) => {
                        note(&mut found, raw, f, b.slice);
                    },
                    None => {},
                }
            }
            i = i + 1;
        }
        assert(data@.take(i as int) =~= data@);
        let ghost all = sightings_of(found@);
        let ghost new = |s: Sighting| !among(fresh, s.raw);
        let mut packets: Vec<ModemPacket> = Vec::new();
        let mut keys: Vec<CacheEntry> = Vec::new();
        let ghost to_packet = |s: Sighting| packet_for(start.ssrc, s, block);
        let ghost to_entry = |s: Sighting| Emitted { raw: s.raw, at: block.now };
        let ghost view = |p: ModemPacket| p@;
        let mut j: usize = 0;
        proof {
            reveal(Seq::filter);
            assert(packets@.map_values(view) =~= all.take(0).filter(new).map_values(to_packet));
            assert(entries(keys@) =~= all.take(0).filter(new).map_values(to_entry));
        }
        while j < found.len()
            invariant
                j <= found@.len(),
                self.wf(),
                self@.ssrc == start.ssrc,
                self@.emitted == fresh,
                self@.fix_bits == start.fix_bits,
                self@.links == pass.run(data@, start.fix_bits).links,
                all == sightings_of(found@),
                new == (|s: Sighting| !among(fresh, s.raw)),
                to_packet == (|s: Sighting| packet_for(start.ssrc, s, block)),
                to_entry == (|s: Sighting| Emitted { raw: s.raw, at: block.now }),
                view == (|p: ModemPacket| p@),
                forall|j: int| 0 <= j < found@.len() ==> (#[trigger] found@[j]).wf(),
                packets@.map_values(view) == all.take(j as int).filter(new).map_values(to_packet),
                forall|i: int|
                    0 <= i < packets@.len() ==> MIN_FRAME_LEN <= (
                    #[trigger] packets@[i]).raw_ax25@.len() + 2 <= MAX_FRAME_LEN,
                entries(keys@) == all.take(j as int).filter(new).map_values(to_entry),
            decreases found@.len() - j,
        {
            let c = &found[j];
            let ghost s = c.sighting();
            let ghost sofar = all.take(j as int).filter(new);
            proof {
                reveal(Seq::filter);
                assert(all.take(j + 1).drop_last() =~= all.take(j as int));
                assert(all.take(j + 1).last() == s);
            }
            if !self.is_cached(&c.raw) {
                let ghost p0 = packets@;
                let ghost k0 = keys@;
                let p = make_packet(self.ssrc, c, block);
                assert(p@.raw_ax25 == c.raw@);
                packets.push(p);
                let raw = vstd::slice::slice_to_vec(c.raw.as_slice());
                keys.push(CacheEntry { raw, at: block.now });
                proof {
                    assert(packets@.map_values(view) =~= p0.map_values(view).push(p@));
                    assert(entries(keys@) =~= entries(k0).push(
                        Emitted { raw: s.raw, at: block.now },
                    ));
                    assert(sofar.push(s).map_values(to_packet) =~= sofar.map_values(
                        to_packet,
                    ).push(to_packet(s)));
                    assert(sofar.push(s).map_values(to_entry) =~= sofar.map_values(to_entry).push(
                        to_entry(s),
                    ));
                }
            }
            j = j + 1;
        }
        assert(all.take(j as int) =~= all);
        let ghost old_cache = self.dedup_cache@;
        let ghost key_entries = keys@;
        self.dedup_cache.append(&mut keys);
        assert(entries(old_cache + key_entries) =~= entries(old_cache) + entries(key_entries));
        proof {
            assert(self@ =~= start.after(data@, block.now));
            delivery::law_listed_once(start, data@, block.now);
            assert forall|i: int| 0 <= i < packets@.len() implies (
            #[trigger] packets@[i])@.tells_of_its_bytes() by {
                assert(packets@.map_values(view)[i] == packets@[i]@);
                delivery::law_packet_tells_of_its_frame(start, data@, block, i);
            }
        }
        packets
    }
}

/// Add slicer `slice` to the sightings of a frame.
fn note(found: &mut Vec<Candidate>, raw: Vec<u8>, f: Ax25Frame, slice: usize)
    requires
        slice < MAX_SLICERS,
        frame::parsed(raw@) == Some(f@),
        f.via@.len() == f.via_heard@.len(),
        MIN_FRAME_LEN <= raw@.len() + 2 <= MAX_FRAME_LEN,
        forall|j: int| 0 <= j < old(found)@.len() ==> (#[trigger] old(found)@[j]).wf(),
    ensures
        sightings_of(final(found)@) == sighted(sightings_of(old(found)@), raw@, slice as int),
        forall|j: int| 0 <= j < final(found)@.len() ==> (#[trigger] final(found)@[j]).wf(),
{
    let bit: u16 = 1u16 << (slice as u16);
    let ghost before = sightings_of(found@);
    let mut i: usize = 0;
    while i < found.len()
        invariant
            i <= found@.len(),
            slice < MAX_SLICERS,
            bit == 1u16 << (slice as u16),
            before == sightings_of(found@),
            *found == *old(found),
            sighting_at(before, raw@, 0) == sighting_at(before, raw@, i as int),
            forall|j: int| 0 <= j < found@.len() ==> (#[trigger] found@[j]).wf(),
        decreases found@.len() - i,
    {
        assert(before[i as int] == found@[i as int].sighting());
        if same_bytes(&found[i].raw, &raw) {
            let mask: u16 = found[i].mask | bit;
            let ghost was = found@[i as int];
            found[i].mask = mask;
            assert(found@[i as int] == Candidate { mask, ..was });
            assert(found@[i as int].wf());
            assert(sightings_of(found@) =~= sighted(before, raw@, slice as int));
            return ;
        }
        i = i + 1;
    }
    found.push(Candidate { raw, frame: f, mask: bit });
    assert(sightings_of(found@) =~= sighted(before, raw@, slice as int));
}

/// Number of slicers in a mask.
fn hits_of(mask: u16) -> (r: u8)
    ensures
        r == mask_count(mask, MAX_SLICERS as int),
{
    let mut r: u8 = 0;
    let mut i: u16 = 0;
    while i < 16
        invariant
            i <= 16,
            r <= i,
            r == mask_count(mask, i as int),
        decreases 16 - i,
    {
        if (mask >> i) & 1u16 == 1u16 {
            r = r + 1;
        }
        i = i + 1;
    }
    r
}

/// Lowest slicer in a mask.
fn first_of(mask: u16) -> (r: usize)
    ensures
        r == mask_first(mask, 0),
{
    let mut i: u16 = 0;
    while i < 16 && (mask >> i) & 1u16 != 1u16
        invariant
            i <= 16,
            mask_first(mask, 0) == mask_first(mask, i as int),
        decreases 16 - i,
    {
        i = i + 1;
    }
    i as usize
}

/// Copies of the strings.
fn copy_strings(v: &Vec<String>) -> (r: Vec<String>)
    ensures
        r@.len() == v@.len(),
        forall|i: int| 0 <= i < v@.len() ==> (#[trigger] r@[i])@ == v@[i]@,
{
    let mut r: Vec<String> = Vec::new();
    let mut i: usize = 0;
    while i < v.len()
        invariant
            i <= v@.len(),
            r@.len() == i,
            forall|j: int| 0 <= j < i ==> (#[trigger] r@[j])@ == v@[j]@,
        decreases v@.len() - i,
    {
        r.push(v[i].clone());
        i = i + 1;
    }
    r
}

/// The packet for a decoded frame.
fn make_packet(ssrc: u32, c: &Candidate, block: BlockInfo) -> (r: ModemPacket)
    requires
        c.wf(),
    ensures
        r@ == packet_for(ssrc, c.sighting(), block),
{
    let f = &c.frame;
    let via_list = copy_strings(&f.via);
    let dti: Option<u8> = if f.info.len() > 0 {
        Some(f.info[0])
    } else {
        None
    };
    let r = ModemPacket {
        ssrc,
        text: text::to_tnc2(f),
        raw_ax25: vstd::slice::slice_to_vec(c.raw.as_slice()),
        received_at: block.received_at,
        first_slice: first_of(c.mask),
        slicer_hits: hits_of(c.mask),
        audio_level: block.audio_level,
        source: f.source.clone(),
        destination: f.destination.clone(),
        via: via_list,
        via_heard: vstd::slice::slice_to_vec(f.via_heard.as_slice()),
        heard_direct: f.heard_direct(),
        heard_from: f.heard_from().to_owned(),
        slicer_mask: c.mask,
        dti,
        info: vstd::slice::slice_to_vec(f.info.as_slice()),
        info_invalid_bytes: text::count_suspect_bytes(f.info.as_slice()),
        signal: block.signal,
    };
    assert(r@.frame =~= f@) by {
        assert(r@.frame.via =~= f@.via);
    }
    r
}

} // verus!
