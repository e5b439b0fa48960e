//! Bytes as bit sequences, least significant bit first (the order HDLC transmits).

use vstd::prelude::*;

verus! {

/// Bit `i` of a byte, counting from the least significant.
pub open spec fn bit_of(b: u8, i: int) -> bool {
    (b >> (i as u8)) & 1u8 == 1u8
}

/// The eight bits of a byte, least significant first.
pub open spec fn byte_bits(b: u8) -> Seq<bool> {
    Seq::new(8, |i: int| bit_of(b, i))
}

/// The bits of a byte string in transmission order.
pub open spec fn bytes_bits(bytes: Seq<u8>) -> Seq<bool> {
    Seq::new(8 * bytes.len(), |i: int| bit_of(bytes[i / 8], i % 8))
}

/// A byte is determined by its bits.
pub proof fn lemma_byte_bits_injective(a: u8, b: u8)
    ensures
        byte_bits(a) == byte_bits(b) <==> a == b,
{
    if byte_bits(a) == byte_bits(b) {
        assert forall|i: int| 0 <= i < 8 implies bit_of(a, i) == bit_of(b, i) by {
            assert(byte_bits(a)[i] == byte_bits(b)[i]);
        }
        assert(bit_of(a, 0) == bit_of(b, 0) && bit_of(a, 1) == bit_of(b, 1));
        assert(bit_of(a, 2) == bit_of(b, 2) && bit_of(a, 3) == bit_of(b, 3));
        assert(bit_of(a, 4) == bit_of(b, 4) && bit_of(a, 5) == bit_of(b, 5));
        assert(bit_of(a, 6) == bit_of(b, 6) && bit_of(a, 7) == bit_of(b, 7));
        assert(a == b) by (bit_vector)
            requires
                ((a >> 0u8) & 1u8 == 1u8) == ((b >> 0u8) & 1u8 == 1u8),
                ((a >> 1u8) & 1u8 == 1u8) == ((b >> 1u8) & 1u8 == 1u8),
                ((a >> 2u8) & 1u8 == 1u8) == ((b >> 2u8) & 1u8 == 1u8),
                ((a >> 3u8) & 1u8 == 1u8) == ((b >> 3u8) & 1u8 == 1u8),
                ((a >> 4u8) & 1u8 == 1u8) == ((b >> 4u8) & 1u8 == 1u8),
                ((a >> 5u8) & 1u8 == 1u8) == ((b >> 5u8) & 1u8 == 1u8),
                ((a >> 6u8) & 1u8 == 1u8) == ((b >> 6u8) & 1u8 == 1u8),
                ((a >> 7u8) & 1u8 == 1u8) == ((b >> 7u8) & 1u8 == 1u8),
        ;
    }
}

/// A byte string is determined by its bits.
pub proof fn lemma_bytes_bits_injective(a: Seq<u8>, b: Seq<u8>)
    ensures
        bytes_bits(a) == bytes_bits(b) <==> a == b,
{
    if bytes_bits(a) == bytes_bits(b) {
        assert(bytes_bits(a).len() == bytes_bits(b).len());
        assert forall|k: int| 0 <= k < a.len() implies a[k] == b[k] by {
            assert forall|i: int| 0 <= i < 8 implies byte_bits(a[k])[i] == byte_bits(b[k])[i] by {
                assert(bytes_bits(a)[8 * k + i] == bytes_bits(b)[8 * k + i]);
                assert((8 * k + i) / 8 == k && (8 * k + i) % 8 == i);
            }
            assert(byte_bits(a[k]) =~= byte_bits(b[k]));
            lemma_byte_bits_injective(a[k], b[k]);
        }
        assert(a =~= b);
    }
}

/// Appending a byte appends its eight bits.
pub proof fn lemma_bytes_bits_push(bytes: Seq<u8>, b: u8)
    ensures
        bytes_bits(bytes.push(b)) == bytes_bits(bytes) + byte_bits(b),
{
    assert(bytes_bits(bytes.push(b)) =~= bytes_bits(bytes) + byte_bits(b));
}

/// The byte string with these bits.
pub open spec fn bytes_of(bits: Seq<bool>) -> Seq<u8> {
    choose|bytes: Seq<u8>| #[trigger] bytes_bits(bytes) == bits
}

/// Packing the bits of a byte string gives it back.
pub proof fn lemma_bytes_of(bytes: Seq<u8>)
    ensures
        bytes_of(bytes_bits(bytes)) == bytes,
{
    lemma_bytes_bits_injective(bytes_of(bytes_bits(bytes)), bytes);
}

/// Shifting a new bit in at the top drops the oldest bit from the sequence.
pub proof fn lemma_shift_in(b: u8, d: bool)
    ensures
        byte_bits((b >> 1) | (if d { 0x80u8 } else { 0u8 })) == byte_bits(b).drop_first().push(d),
{
    let c: u8 = (b >> 1) | (if d { 0x80u8 } else { 0u8 });
    assert forall|i: int| 0 <= i < 8 implies byte_bits(c)[i] == byte_bits(b).drop_first().push(
        d,
    )[i] by {
        let k: u8 = i as u8;
        if i < 7 {
            assert((c >> k) & 1u8 == (b >> ((k + 1) as u8)) & 1u8) by (bit_vector)
                requires
                    k < 7,
                    c == (b >> 1) | 0x80u8 || c == (b >> 1) | 0u8,
            ;
            assert((k + 1) as u8 == (i + 1) as u8);
        } else {
            assert(((c >> 7u8) & 1u8 == 1u8) == d) by (bit_vector)
                requires
                    c == (b >> 1) | (if d { 0x80u8 } else { 0u8 }),
            ;
        }
    }
    assert(byte_bits(c) =~= byte_bits(b).drop_first().push(d));
}

/// Bits are numbered from the least significant one of the first byte: bit `j` of byte `i` is
/// the digit of weight two to the `j`.
pub proof fn law_bits_by_weight(bytes: Seq<u8>, i: int, j: nat)
    requires
        0 <= i < bytes.len(),
        j < 8,
    ensures
        bytes_bits(bytes).len() == 8 * bytes.len(),
        bytes_bits(bytes)[8 * i + j] <==> (bytes[i] as nat / vstd::arithmetic::power2::pow2(j)) % 2
            == 1,
{
    let b: u8 = bytes[i];
    let k: u8 = j as u8;
    assert((8 * i + j) / 8 == i && (8 * i + j) % 8 == j);
    vstd::bits::lemma_u8_shr_is_div(b, k);
    let c: u8 = b >> k;
    assert(c & 1u8 == c % 2u8) by (bit_vector);
}

} // verus!
