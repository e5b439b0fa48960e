//! Frame check sequence and bit-error recovery.

use vstd::prelude::*;

use crate::bits;
use crate::config::FixBits;
use crate::hdlc::framer::RawFrame;

verus! {

/// One step of the check register: shift right, folding the bit that leaves back in.
pub open spec fn shift(reg: u16) -> u16 {
    if reg & 1 == 1 {
        (reg >> 1) ^ 0x8408
    } else {
        reg >> 1
    }
}

/// A bit as a register value.
pub open spec fn unit(b: bool) -> u16 {
    if b {
        1u16
    } else {
        0u16
    }
}

/// The check register after `bits` have been fed into it, first bit first.
pub open spec fn register(reg: u16, bits: Seq<bool>) -> u16
    decreases bits.len(),
{
    if bits.len() == 0 {
        reg
    } else {
        shift(register(reg, bits.drop_last()) ^ unit(bits.last()))
    }
}

/// CRC-16-CCITT as HDLC uses it: least significant bit first, all ones at the start,
/// complemented at the end.
pub open spec fn fcs_of(data: Seq<u8>) -> u16 {
    !register(0xFFFF, bits::bytes_bits(data))
}

/// A payload followed by its check sequence, low byte first.
pub open spec fn with_fcs(payload: Seq<u8>) -> Seq<u8> {
    let fcs = fcs_of(payload);
    payload.push((fcs & 0xFF) as u8).push((fcs >> 8) as u8)
}

/// The last two bytes of a frame are the check sequence of the rest.
pub open spec fn fcs_ok(frame: Seq<u8>) -> bool {
    frame.len() >= 2 && frame == with_fcs(payload_of(frame))
}

/// A frame without its check sequence.
pub open spec fn payload_of(frame: Seq<u8>) -> Seq<u8> {
    frame.take(frame.len() - 2)
}

/// The frame with bit `k` (in transmission order) inverted.
pub open spec fn flip(frame: Seq<u8>, k: int) -> Seq<u8> {
    frame.update(k / 8, frame[k / 8] ^ (1u8 << ((k % 8) as u8)))
}

/// The frame with bits `k` and `k + 1` inverted.
pub open spec fn flip_pair(frame: Seq<u8>, k: int) -> Seq<u8> {
    flip(flip(frame, k), k + 1)
}

/// Payload of the first candidate among `k..n` whose check sequence holds.
pub open spec fn first_valid(candidate: spec_fn(int) -> Seq<u8>, k: int, n: int) -> Option<Seq<u8>>
    decreases n - k,
{
    if k >= n {
        None
    } else if fcs_ok(candidate(k)) {
        Some(payload_of(candidate(k)))
    } else {
        first_valid(candidate, k + 1, n)
    }
}

/// What inverting one bit recovers: the first bit position that works.
pub open spec fn single_fix(frame: Seq<u8>) -> Option<Seq<u8>> {
    first_valid(|k: int| flip(frame, k), 0, 8 * frame.len() as int)
}

/// What inverting two neighbouring bits recovers: the first pair that works.
pub open spec fn double_fix(frame: Seq<u8>) -> Option<Seq<u8>> {
    first_valid(|k: int| flip_pair(frame, k), 0, 8 * frame.len() - 1)
}

/// The payload that validation yields.
pub open spec fn validated(frame: Seq<u8>, fix_bits: FixBits) -> Option<Seq<u8>> {
    if frame.len() < 2 {
        None
    } else if fcs_ok(frame) {
        Some(payload_of(frame))
    } else {
        match fix_bits {
            FixBits::Off => None,
            FixBits::Single => single_fix(frame),
            FixBits::Double => match single_fix(frame) {
                Some(p) => Some(p),
                None => double_fix(frame),
            },
        }
    }
}

/// Validation takes off the two octets of the check sequence and no others, whichever
/// bits it repairs.
pub proof fn law_validated_len(frame: Seq<u8>, fix_bits: FixBits)
    ensures
        validated(frame, fix_bits) matches Some(p) ==> p.len() + 2 == frame.len(),
{
    lemma_first_valid_len(|k: int| flip(frame, k), 0, 8 * frame.len() as int, frame.len() as int);
    lemma_first_valid_len(|k: int| flip_pair(frame, k), 0, 8 * frame.len() - 1, frame.len() as int);
}

proof fn lemma_first_valid_len(candidate: spec_fn(int) -> Seq<u8>, k: int, n: int, len: int)
    requires
        forall|i: int| k <= i < n ==> (#[trigger] candidate(i)).len() == len,
    ensures
        len >= 2 ==> (first_valid(candidate, k, n) matches Some(p) ==> p.len() + 2 == len),
    decreases n - k,
{
    if k < n {
        assert(candidate(k).len() == len);
        lemma_first_valid_len(candidate, k + 1, n, len);
    }
}

/// Frame with its check sequence verified and removed.
#[derive(Debug, Clone)]
pub struct ValidFrame {
    /// Frame bytes without the FCS.
    pub data: Vec<u8>,
}

/// Compute the check sequence of `data` bit by bit.
pub fn crc16(data: &[u8]) -> (r: u16)
    ensures
        r == fcs_of(data@),
{
    let mut crc: u16 = 0xFFFF;
    let mut i: usize = 0;
    assert(bits::bytes_bits(data@.take(0)) =~= Seq::<bool>::empty());
    while i < data.len()
        invariant
            i <= data@.len(),
            crc == register(0xFFFF, bits::bytes_bits(data@.take(i as int))),
        decreases data@.len() - i,
    {
        let mut b: u8 = data[i];
        let ghost whole = b;
        let ghost done = bits::bytes_bits(data@.take(i as int));
        let mut j: u8 = 0;
        proof {
            assert(done + bits::byte_bits(whole).take(0) =~= done);
            assert(whole >> 0u8 == whole) by (bit_vector);
        }
        while j < 8
            invariant
                j <= 8,
                b == whole >> j,
                crc == register(0xFFFF, done + bits::byte_bits(whole).take(j as int)),
            decreases 8 - j,
        {
            let bit: u16 = (crc ^ (b as u16)) & 1;
            let ghost before = crc;
            crc = crc >> 1;
            if bit != 0 {
                crc = crc ^ 0x8408;
            }
            proof {
                let d = bits::bit_of(whole, j as int);
                let seq1 = done + bits::byte_bits(whole).take(j + 1);
                assert(seq1.drop_last() =~= done + bits::byte_bits(whole).take(j as int));
                assert(seq1.last() == d);
                lemma_shift_bit(before, b);
                assert(unit(d) == if b & 1u8 == 1u8 { 1u16 } else { 0u16 });
                assert(b >> 1u8 == whole >> ((j + 1) as u8)) by (bit_vector)
                    requires
                        b == whole >> j,
                        j < 8,
                ;
            }
            b = b >> 1;
            j = j + 1;
        }
        proof {
            assert(bits::byte_bits(whole).take(8) =~= bits::byte_bits(whole));
            bits::lemma_bytes_bits_push(data@.take(i as int), whole);
            assert(data@.take(i as int).push(whole) =~= data@.take(i + 1));
        }
        i = i + 1;
    }
    assert(data@.take(data@.len() as int) =~= data@);
    !crc
}

/// The register update in code is one shift of the register with the bit added.
proof fn lemma_shift_bit(crc: u16, b: u8)
    ensures
        shift(crc ^ (if b & 1u8 == 1u8 { 1u16 } else { 0u16 })) == if (crc ^ (b as u16)) & 1 != 0 {
            (crc >> 1) ^ 0x8408
        } else {
            crc >> 1
        },
{
    assert(shift(crc ^ (if b & 1u8 == 1u8 { 1u16 } else { 0u16 })) == if (crc ^ (b as u16)) & 1
        != 0 {
        (crc >> 1) ^ 0x8408
    } else {
        crc >> 1
    }) by (bit_vector);
}

/// True if the frame ends in the check sequence of what precedes it.
pub fn check_crc(frame: &[u8]) -> (r: bool)
    requires
        frame@.len() >= 2,
    ensures
        r == fcs_ok(frame@),
{
    let n: usize = frame.len();
    let payload = vstd::slice::slice_subrange(frame, 0, n - 2);
    let lo: u8 = frame[n - 2];
    let hi: u8 = frame[n - 1];
    let stored_fcs: u16 = (lo as u16) | ((hi as u16) << 8);
    let fcs: u16 = crc16(payload);
    proof {
        assert(payload@ =~= payload_of(frame@));
        assert((fcs == (lo as u16) | ((hi as u16) << 8)) == ((fcs & 0xFF) as u8 == lo && (fcs
            >> 8) as u8 == hi)) by (bit_vector);
        let w = with_fcs(payload@);
        if fcs == stored_fcs {
            assert(frame@ =~= w);
        } else {
            assert(w[n - 2] != frame@[n - 2] || w[n - 1] != frame@[n - 1]);
        }
    }
    fcs == stored_fcs
}

/// Invert bit `bit` of byte `byte`.
fn toggle(buf: &mut Vec<u8>, byte: usize, bit: u8)
    requires
        byte < old(buf)@.len(),
        bit < 8,
    ensures
        final(buf)@ == flip(old(buf)@, 8 * byte + bit),
        flip(final(buf)@, 8 * byte + bit) == old(buf)@,
{
    let ghost before = buf@;
    let v: u8 = buf[byte];
    buf.set(byte, v ^ (1u8 << bit));
    proof {
        let k = 8 * byte + bit;
        assert(k / 8 == byte && k % 8 == bit);
        assert((v ^ (1u8 << bit)) ^ (1u8 << bit) == v) by (bit_vector);
        assert(flip(buf@, k) =~= before);
    }
}

/// Payload bytes of a frame.
fn strip_fcs(frame: &Vec<u8>) -> (r: ValidFrame)
    requires
        frame@.len() >= 2,
    ensures
        r.data@ == payload_of(frame@),
{
    let data = vstd::slice::slice_to_vec(
        vstd::slice::slice_subrange(frame.as_slice(), 0, frame.len() - 2),
    );
    assert(data@ =~= payload_of(frame@));
    ValidFrame { data }
}

/// Try inverting each bit in turn; the first valid result wins.
pub fn fix_single_bit(frame: &[u8]) -> (r: Option<ValidFrame>)
    requires
        frame@.len() >= 2,
    ensures
        r is Some <==> single_fix(frame@) is Some,
        r matches Some(v) ==> v.data@ == single_fix(frame@)->0,
{
    let n: usize = frame.len();
    let mut buf: Vec<u8> = vstd::slice::slice_to_vec(frame);
    assert(buf@ =~= frame@);
    let ghost cand = |k: int| flip(frame@, k);
    let mut byte_idx: usize = 0;
    while byte_idx < n
        invariant
            n == frame@.len(),
            n >= 2,
            byte_idx <= n,
            buf@ == frame@,
            cand == (|k: int| flip(frame@, k)),
            single_fix(frame@) == first_valid(cand, 8 * byte_idx, 8 * n),
        decreases n - byte_idx,
    {
        let mut bit_idx: u8 = 0;
        while bit_idx < 8
            invariant
                n == frame@.len(),
                n >= 2,
                byte_idx < n,
                bit_idx <= 8,
                buf@ == frame@,
                cand == (|k: int| flip(frame@, k)),
                single_fix(frame@) == first_valid(cand, 8 * byte_idx + bit_idx, 8 * n),
            decreases 8 - bit_idx,
        {
            let ghost k = 8 * byte_idx + bit_idx;
            toggle(&mut buf, byte_idx, bit_idx);
            assert(cand(k) == buf@);
            if check_crc(buf.as_slice()) {
                return Some(strip_fcs(&buf));
            }
            toggle(&mut buf, byte_idx, bit_idx);
            bit_idx = bit_idx + 1;
        }
        byte_idx = byte_idx + 1;
    }
    None
}

/// Try inverting each pair of neighbouring bits; the first valid result wins.
///
/// A pair may span the boundary between two bytes.
pub fn fix_double_adjacent(frame: &[u8]) -> (r: Option<ValidFrame>)
    requires
        frame@.len() >= 2,
    ensures
        r is Some <==> double_fix(frame@) is Some,
        r matches Some(v) ==> v.data@ == double_fix(frame@)->0,
{
    let n: usize = frame.len();
    let mut buf: Vec<u8> = vstd::slice::slice_to_vec(frame);
    assert(buf@ =~= frame@);
    let ghost cand = |k: int| flip_pair(frame@, k);
    let mut b0: usize = 0;
    let mut bit0: u8 = 0;
    while b0 + 1 < n || bit0 < 7
        invariant
            n == frame@.len(),
            n >= 2,
            b0 < n,
            bit0 < 8,
            buf@ == frame@,
            cand == (|k: int| flip_pair(frame@, k)),
            double_fix(frame@) == first_valid(cand, 8 * b0 + bit0, 8 * n - 1),
        decreases 8 * n - 8 * b0 - bit0,
    {
        let ghost k = 8 * b0 + bit0;
        let b1: usize = if bit0 == 7 { b0 + 1 } else { b0 };
        let bit1: u8 = if bit0 == 7 { 0 } else { bit0 + 1 };
        assert(8 * b1 + bit1 == k + 1);
        toggle(&mut buf, b0, bit0);
        toggle(&mut buf, b1, bit1);
        assert(cand(k) == buf@);
        if check_crc(buf.as_slice()) {
            return Some(strip_fcs(&buf));
        }
        toggle(&mut buf, b1, bit1);
        toggle(&mut buf, b0, bit0);
        b0 = b1;
        bit0 = bit1;
    }
    None
}

/// Validate a raw frame and, if configured, recover from bit errors.
///
/// `raw.data` holds the two-byte FCS at its end; the result does not.
pub fn try_validate(raw: &RawFrame, fix_bits: FixBits) -> (r: Option<ValidFrame>)
    ensures
        r is Some <==> validated(raw.data@, fix_bits) is Some,
        r matches Some(v) ==> v.data@ == validated(raw.data@, fix_bits)->0,
{
    if raw.data.len() < 2 {
        return None;
    }
    let data = raw.data.as_slice();
    if check_crc(data) {
        return Some(strip_fcs(&raw.data));
    }
    match fix_bits {
        FixBits::Off => None,
        FixBits::Single => fix_single_bit(data),
        FixBits::Double => match fix_single_bit(data) {
            Some(v) => Some(v),
            None => fix_double_adjacent(data),
        },
    }
}

} // verus!
