//! Flag detection, NRZI decoding and bit destuffing.

use vstd::prelude::*;

use crate::afsk::dpll::DemodBit;
use crate::bits;

verus! {

/// Minimum frame: 14 address bytes, control, PID and a two-byte FCS.
pub const MIN_FRAME_LEN: usize = 18;

/// Frames longer than this are abandoned.
pub const MAX_FRAME_LEN: usize = 512;

/// A completed frame, FCS included.
#[derive(Debug, Clone)]
pub struct RawFrame {
    /// Frame bytes including the two-byte FCS.
    pub data: Vec<u8>,
}

/// What a framer remembers, as a value of mathematics.
#[verifier::ext_equal]
pub struct LinkState {
    /// Line level of the last bit received.
    pub level: bool,
    /// The last eight logical bits, oldest first.
    pub window: Seq<bool>,
    /// Data bits since the opening flag; `None` outside a frame.
    pub bits: Option<Seq<bool>>,
}

/// The flag octet as a bit pattern.
pub open spec fn flag_bits() -> Seq<bool> {
    seq![false, true, true, true, true, true, true, false]
}

/// A zero and seven ones: the abort pattern.
pub open spec fn abort_bits() -> Seq<bool> {
    seq![false, true, true, true, true, true, true, true]
}

/// Five ones and a zero in the newest six bits: the zero was stuffed by the sender.
pub open spec fn ends_stuffed(window: Seq<bool>) -> bool {
    window.subrange(2, 8) == seq![true, true, true, true, true, false]
}

impl LinkState {
    /// The window is full, and what was collected can still be a frame.
    pub open spec fn wf(self) -> bool {
        &&& self.window.len() == 8
        &&& self.bits matches Some(b) ==> b.len() < 8 * (MAX_FRAME_LEN + 1)
    }

    /// The window after logical bit `d`.
    pub open spec fn shifted(self, d: bool) -> Seq<bool> {
        self.window.drop_first().push(d)
    }

    /// State after line level `raw` has been received.
    pub open spec fn next(self, raw: bool) -> LinkState {
        let d = raw == self.level;
        let window = self.shifted(d);
        let bits = if window == abort_bits() {
            None
        } else if window == flag_bits() {
            Some(Seq::<bool>::empty())
        } else if ends_stuffed(window) {
            self.bits
        } else {
            match self.bits {
                Some(b) if b.len() + 1 < 8 * (MAX_FRAME_LEN + 1) => Some(b.push(d)),
                _ => None,
            }
        };
        LinkState { level: raw, window, bits }
    }

    /// The bits of the frame that line level `raw` completes, if it completes one:
    /// the whole octets collected between two flags, provided they are enough.
    pub open spec fn completes(self, raw: bool) -> Option<Seq<bool>> {
        if self.shifted(raw == self.level) == flag_bits() {
            match self.bits {
                Some(b) if b.len() / 8 >= MIN_FRAME_LEN => Some(b.take(8 * (b.len() / 8) as int)),
                _ => None,
            }
        } else {
            None
        }
    }
}

/// Per-slicer framing state machine, fed one demodulated bit at a time.
#[derive(Debug, Clone)]
pub struct HdlcDecoder {
    /// Previous raw bit, for NRZI decoding.
    prev_raw: bool,
    /// The last eight logical bits, newest in the top bit.
    pat_det: u8,
    /// Octet under construction: its newest `olen` bits sit at the top.
    oacc: u8,
    /// Number of bits in `oacc`.
    olen: u8,
    /// Complete octets since the opening flag.
    frame_buf: Vec<u8>,
    /// True between an opening flag and the flag or abort that ends the frame.
    in_frame: bool,
}

impl View for HdlcDecoder {
    type V = LinkState;

    closed spec fn view(&self) -> LinkState {
        LinkState {
            level: self.prev_raw,
            window: bits::byte_bits(self.pat_det),
            bits: if self.in_frame {
                Some(
                    bits::bytes_bits(self.frame_buf@) + bits::byte_bits(self.oacc).skip(
                        8 - self.olen,
                    ),
                )
            } else {
                None
            },
        }
    }
}

impl HdlcDecoder {
    /// What every operation keeps.
    pub closed spec fn wf(&self) -> bool {
        self.olen < 8 && self.frame_buf@.len() <= MAX_FRAME_LEN
    }

    /// What a sound framer remembers: eight bits of the line, and inside a frame no more
    /// bits than the longest frame has, but for an octet under construction.
    pub proof fn lemma_wf(&self)
        requires
            self.wf(),
        ensures
            self@.wf(),
    {
    }

    /// A framer on an idle line.
    pub fn new(_slice: usize) -> (r: Self)
        ensures
            r.wf(),
            r@ == (LinkState { level: false, window: Seq::new(8, |i: int| false), bits: None }),
    {
        let r = Self {
            prev_raw: false,
            pat_det: 0,
            oacc: 0,
            olen: 0,
            frame_buf: Vec::new(),
            in_frame: false,
        };
        proof {
            assert forall|i: int| 0 <= i < 8 implies bits::byte_bits(0u8)[i] == false by {
                let k: u8 = i as u8;
                assert((0u8 >> k) & 1u8 != 1u8) by (bit_vector);
            }
            assert(bits::byte_bits(0u8) =~= Seq::new(8, |i: int| false));
        }
        r
    }

    /// Feed one raw bit; returns the frame that it closes, if any.
    ///
    /// NRZI decoding happens here: no transition is a 1, a transition is a 0.
    pub fn push_bit(&mut self, dbit_raw: bool) -> (r: Option<RawFrame>)
        requires
            old(self).wf(),
        ensures
            final(self).wf(),
            final(self)@ == old(self)@.next(dbit_raw),
            r is Some <==> old(self)@.completes(dbit_raw) is Some,
            r matches Some(f) ==> bits::bytes_bits(f.data@) == old(self)@.completes(dbit_raw)->0,
            r matches Some(f) ==> MIN_FRAME_LEN <= f.data@.len() <= MAX_FRAME_LEN,
    {
        let ghost st = self@;
        let dbit: bool = dbit_raw == self.prev_raw;
        self.prev_raw = dbit_raw;

        let ghost pat0 = self.pat_det;
        self.pat_det = (self.pat_det >> 1) | (if dbit { 0x80u8 } else { 0u8 });
        proof {
            bits::lemma_shift_in(pat0, dbit);
            lemma_patterns(self.pat_det);
        }

        // Seven consecutive ones abort the frame.
        if self.pat_det == 0xFE {
            self.oacc = 0;
            self.olen = 0;
            self.frame_buf.clear();
            self.in_frame = false;
            assert(self@ =~= st.next(dbit_raw));
            return None;
        }
        // A flag ends one frame and starts the next.
        if self.pat_det == 0x7E {
            let result = if self.in_frame && self.frame_buf.len() >= MIN_FRAME_LEN {
                Some(RawFrame { data: self.frame_buf.clone() })
            } else {
                None
            };
            proof {
                if self.in_frame {
                    let b = st.bits->0;
                    let n = self.frame_buf@.len();
                    assert(b.len() == 8 * n + self.olen);
                    assert(b.len() / 8 == n);
                    assert(b.take(8 * n as int) =~= bits::bytes_bits(self.frame_buf@));
                    if result is Some {
                        assert(result->0.data@ =~= self.frame_buf@);
                    }
                }
            }
            self.oacc = 0;
            self.olen = 0;
            self.frame_buf.clear();
            self.in_frame = true;
            assert(self@.bits->0 =~= Seq::<bool>::empty());
            assert(self@ =~= st.next(dbit_raw));
            return result;
        }
        // Five ones and a zero: the zero was stuffed, skip it.
        if (self.pat_det & 0xFC) == 0x7C {
            assert(self@ =~= st.next(dbit_raw));
            return None;
        }
        if !self.in_frame {
            assert(self@ =~= st.next(dbit_raw));
            return None;
        }
        let ghost acc0 = self.oacc;
        let ghost b = st.bits->0;
        let ghost n = self.frame_buf@.len();
        self.oacc = (self.oacc >> 1) | (if dbit { 0x80u8 } else { 0u8 });
        self.olen = self.olen + 1;
        proof {
            bits::lemma_shift_in(acc0, dbit);
            assert(bits::byte_bits(self.oacc).skip(8 - self.olen) =~= bits::byte_bits(acc0).skip(
                8 - (self.olen - 1),
            ).push(dbit));
            assert(b.push(dbit) =~= bits::bytes_bits(self.frame_buf@) + bits::byte_bits(
                self.oacc,
            ).skip(8 - self.olen));
        }
        if self.olen == 8 {
            if self.frame_buf.len() < MAX_FRAME_LEN {
                self.frame_buf.push(self.oacc);
                proof {
                    bits::lemma_bytes_bits_push(self.frame_buf@.drop_last(), self.oacc);
                    assert(self.frame_buf@.drop_last().push(self.oacc) =~= self.frame_buf@);
                    assert(bits::byte_bits(self.oacc).skip(0) =~= bits::byte_bits(self.oacc));
                    assert(bits::bytes_bits(self.frame_buf@) =~= b.push(dbit));
                }
            } else {
                // Overlong frame: abandon it.
                self.frame_buf.clear();
                self.in_frame = false;
            }
            self.oacc = 0;
            self.olen = 0;
            proof {
                if self.in_frame {
                    assert(self@.bits->0 =~= b.push(dbit));
                }
            }
        }
        assert(self@ =~= st.next(dbit_raw));
        None
    }

    /// Feed a [`DemodBit`].
    pub fn push(&mut self, b: &DemodBit) -> (r: Option<RawFrame>)
        requires
            old(self).wf(),
        ensures
            final(self).wf(),
            final(self)@ == old(self)@.next(b.bit),
            r is Some <==> old(self)@.completes(b.bit) is Some,
            r matches Some(f) ==> bits::bytes_bits(f.data@) == old(self)@.completes(b.bit)->0,
            r matches Some(f) ==> MIN_FRAME_LEN <= f.data@.len() <= MAX_FRAME_LEN,
    {
        self.push_bit(b.bit)
    }
}

/// The pattern register tests mean what the window says.
proof fn lemma_patterns(p: u8)
    ensures
        p == 0xFE <==> bits::byte_bits(p) == abort_bits(),
        p == 0x7E <==> bits::byte_bits(p) == flag_bits(),
        (p & 0xFC) == 0x7C <==> ends_stuffed(bits::byte_bits(p)),
{
    assert(((p & 0xFC) == 0x7C) == (((p >> 2u8) & 1u8 == 1u8) && ((p >> 3u8) & 1u8 == 1u8) && ((p
        >> 4u8) & 1u8 == 1u8) && ((p >> 5u8) & 1u8 == 1u8) && ((p >> 6u8) & 1u8 == 1u8) && !((p
        >> 7u8) & 1u8 == 1u8))) by (bit_vector);
    let w = bits::byte_bits(p);
    let s = seq![true, true, true, true, true, false];
    if (p & 0xFC) == 0x7C {
        assert(w.subrange(2, 8) =~= s);
    }
    if ends_stuffed(w) {
        assert(w.subrange(2, 8)[0] == s[0] && w.subrange(2, 8)[1] == s[1]);
        assert(w.subrange(2, 8)[2] == s[2] && w.subrange(2, 8)[3] == s[3]);
        assert(w.subrange(2, 8)[4] == s[4] && w.subrange(2, 8)[5] == s[5]);
    }
    bits::lemma_byte_bits_injective(p, 0xFEu8);
    bits::lemma_byte_bits_injective(p, 0x7Eu8);
    assert(bits::byte_bits(0xFEu8) =~= abort_bits() && bits::byte_bits(0x7Eu8) =~= flag_bits()) by {
        lemma_flag_octets();
    }
}

/// The octets behind the flag and abort patterns.
proof fn lemma_flag_octets()
    ensures
        bits::byte_bits(0xFEu8) == abort_bits(),
        bits::byte_bits(0x7Eu8) == flag_bits(),
{
    assert((0xFEu8 >> 0u8) & 1u8 == 0u8 && (0xFEu8 >> 1u8) & 1u8 == 1u8 && (0xFEu8 >> 2u8) & 1u8
        == 1u8 && (0xFEu8 >> 3u8) & 1u8 == 1u8 && (0xFEu8 >> 4u8) & 1u8 == 1u8 && (0xFEu8 >> 5u8)
        & 1u8 == 1u8 && (0xFEu8 >> 6u8) & 1u8 == 1u8 && (0xFEu8 >> 7u8) & 1u8 == 1u8 && (0x7Eu8
        >> 0u8) & 1u8 == 0u8 && (0x7Eu8 >> 1u8) & 1u8 == 1u8 && (0x7Eu8 >> 2u8) & 1u8 == 1u8 && (
    0x7Eu8 >> 3u8) & 1u8 == 1u8 && (0x7Eu8 >> 4u8) & 1u8 == 1u8 && (0x7Eu8 >> 5u8) & 1u8 == 1u8 && (
    0x7Eu8 >> 6u8) & 1u8 == 1u8 && (0x7Eu8 >> 7u8) & 1u8 == 0u8) by (bit_vector);
    assert(bits::byte_bits(0xFEu8) =~= abort_bits());
    assert(bits::byte_bits(0x7Eu8) =~= flag_bits());
}

/// A line level that equals the one before is a one and a change is a zero: the level that
/// stands for a bit depends on the polarity of the line, what is received does not.
pub proof fn law_polarity_is_free(st: LinkState, raw: bool)
    ensures
        ({
            let turned = LinkState { level: !st.level, ..st };
            &&& turned.completes(!raw) == st.completes(raw)
            &&& turned.next(!raw) == (LinkState { level: !raw, ..st.next(raw) })
            &&& st.next(raw).window == st.window.subrange(1, st.window.len() as int).push(
                raw == st.level,
            )
            &&& st.next(raw).level == raw
        }),
{
    let turned = LinkState { level: !st.level, ..st };
    assert(turned.next(!raw) =~= (LinkState { level: !raw, ..st.next(raw) }));
}

/// What a bit does to a frame. `w` holds the seven bits before it and the bit itself.
///
/// - A zero, six ones and a zero open a frame, and close the one that was open: it is handed
///   over if it has eighteen octets, and what is handed over are all the bits collected, but
///   for fewer than eight at the end that make no octet.
/// - A zero and seven ones leave any frame.
/// - A zero behind exactly five ones is not collected.
/// - Every other bit of an open frame is collected, up to 512 octets; with the last bit of
///   one more the frame is left.
/// - Outside a frame nothing is collected, and but for the closing flag nothing is handed
///   over.
pub proof fn law_bit_by_bit(st: LinkState, d: bool)
    requires
        st.wf(),
    ensures
        ({
            let raw = d == st.level;
            let after = st.next(raw);
            let w = st.window.subrange(1, 8).push(d);
            let six = w[1] && w[2] && w[3] && w[4] && w[5] && w[6];
            let flag = !w[0] && six && !w[7];
            let abort = !w[0] && six && w[7];
            let stuffing = w[2] && w[3] && w[4] && w[5] && w[6] && !w[7];
            let out = st.completes(raw);
            &&& after.wf()
            &&& flag ==> after.bits is Some && after.bits->0.len() == 0
            &&& flag ==> (out is Some <==> st.bits is Some && st.bits->0.len() >= 144)
            &&& out is Some ==> flag && out->0.len() % 8 == 0 && st.bits->0.len() - 8
                < out->0.len() <= st.bits->0.len() && (forall|i: int|
                0 <= i < out->0.len() ==> #[trigger] out->0[i] == st.bits->0[i])
            &&& abort ==> after.bits is None
            &&& stuffing && !flag ==> after.bits == st.bits
            &&& !flag && st.bits is None ==> after.bits is None
            &&& !flag && !abort && !stuffing && st.bits is Some ==> if st.bits->0.len() < 4103 {
                after.bits == Some(st.bits->0.push(d))
            } else {
                after.bits is None
            }
        }),
{
    let raw = d == st.level;
    let w = st.window.subrange(1, 8).push(d);
    assert(st.shifted(d) =~= w);
    assert((raw == st.level) == d);
    let f = flag_bits();
    let a = abort_bits();
    let s = seq![true, true, true, true, true, false];
    let six = w[1] && w[2] && w[3] && w[4] && w[5] && w[6];
    if !w[0] && six {
        if w[7] {
            assert(w =~= a);
        } else {
            assert(w =~= f);
        }
    }
    if w[2] && w[3] && w[4] && w[5] && w[6] && !w[7] {
        assert(w.subrange(2, 8) =~= s);
    }
    assert(w.subrange(2, 8)[0] == w[2] && w.subrange(2, 8)[1] == w[3]);
    assert(w.subrange(2, 8)[2] == w[4] && w.subrange(2, 8)[3] == w[5]);
    assert(w.subrange(2, 8)[4] == w[6] && w.subrange(2, 8)[5] == w[7]);
}

} // verus!
