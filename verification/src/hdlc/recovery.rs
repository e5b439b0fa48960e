//! Which bit errors the check sequence detects, and which of them recovery undoes.

use vstd::prelude::*;

use crate::bits;
use crate::config::FixBits;
use crate::hdlc::fec;

verus! {

/// The check register shifted `k` times with no input.
pub open spec fn steps(v: u16, k: nat) -> u16
    decreases k,
{
    if k == 0 {
        v
    } else {
        fec::shift(steps(v, (k - 1) as nat))
    }
}

/// `v` if the masked bit of `a` is set.
spec fn pick(a: u16, mask: u16, v: u16) -> u16 {
    if a & mask != 0 {
        v
    } else {
        0u16
    }
}

/// Sum of the words that the bits of `a` select, top bit first.
spec fn combine(a: u16, v0: u16, v1: u16, v2: u16, v3: u16, v4: u16, v5: u16, v6: u16, v7: u16,
    v8: u16, v9: u16, v10: u16, v11: u16, v12: u16, v13: u16, v14: u16, v15: u16) -> u16 {
    pick(a, 0x8000, v0) ^ pick(a, 0x4000, v1) ^ pick(a, 0x2000, v2) ^ pick(a, 0x1000, v3)
        ^ pick(a, 0x800, v4) ^ pick(a, 0x400, v5) ^ pick(a, 0x200, v6) ^ pick(a, 0x100, v7)
        ^ pick(a, 0x80, v8) ^ pick(a, 0x40, v9) ^ pick(a, 0x20, v10) ^ pick(a, 0x10, v11)
        ^ pick(a, 0x8, v12) ^ pick(a, 0x4, v13) ^ pick(a, 0x2, v14) ^ pick(a, 0x1, v15)
}

/// Product of two registers: the field multiplication in which a shift is the
/// multiplication by the generator.
spec fn times(a: u16, v: u16) -> u16 {
    combine(a, v, steps(v, 1), steps(v, 2), steps(v, 3), steps(v, 4), steps(v, 5), steps(v, 6),
        steps(v, 7), steps(v, 8), steps(v, 9), steps(v, 10), steps(v, 11), steps(v, 12), steps(v,
        13), steps(v, 14), steps(v, 15))
}

proof fn lemma_shift_linear(x: u16, y: u16)
    ensures
        fec::shift(x ^ y) == fec::shift(x) ^ fec::shift(y),
{
    assert(fec::shift(x ^ y) == fec::shift(x) ^ fec::shift(y)) by (bit_vector);
}

proof fn lemma_shift_injective(x: u16, y: u16)
    ensures
        fec::shift(x) == fec::shift(y) <==> x == y,
        fec::shift(0) == 0,
{
    assert(fec::shift(x) == fec::shift(y) ==> x == y) by (bit_vector);
    assert(fec::shift(0) == 0) by (bit_vector);
}

proof fn lemma_steps_linear(x: u16, y: u16, k: nat)
    ensures
        steps(x ^ y, k) == steps(x, k) ^ steps(y, k),
    decreases k,
{
    if k > 0 {
        lemma_steps_linear(x, y, (k - 1) as nat);
        lemma_shift_linear(steps(x, (k - 1) as nat), steps(y, (k - 1) as nat));
    }
}

proof fn lemma_steps_injective(x: u16, y: u16, k: nat)
    ensures
        steps(x, k) == steps(y, k) <==> x == y,
        steps(0, k) == 0,
    decreases k,
{
    if k > 0 {
        lemma_steps_injective(x, y, (k - 1) as nat);
        lemma_shift_injective(steps(x, (k - 1) as nat), steps(y, (k - 1) as nat));
    }
}

proof fn lemma_steps_add(v: u16, a: nat, b: nat)
    ensures
        steps(v, a + b) == steps(steps(v, a), b),
    decreases b,
{
    if b > 0 {
        lemma_steps_add(v, a, (b - 1) as nat);
    }
}

/// As below, for a register with one byte clear.
proof fn lemma_sixteen_steps_half(v: u16)
    requires
        v & 0xFF00 == 0 || v & 0xFF == 0,
    ensures
        steps(v, 16) == v ^ steps(v, 5) ^ steps(v, 12),
{
    let v0 = steps(v, 0);
    let v1 = steps(v, 1);
    let v2 = steps(v, 2);
    let v3 = steps(v, 3);
    let v4 = steps(v, 4);
    let v5 = steps(v, 5);
    let v6 = steps(v, 6);
    let v7 = steps(v, 7);
    let v8 = steps(v, 8);
    let v9 = steps(v, 9);
    let v10 = steps(v, 10);
    let v11 = steps(v, 11);
    let v12 = steps(v, 12);
    let v13 = steps(v, 13);
    let v14 = steps(v, 14);
    let v15 = steps(v, 15);
    let v16 = steps(v, 16);
    assert(v16 == v0 ^ v5 ^ v12) by (bit_vector)
        requires
            v0 & 0xFF00 == 0 || v0 & 0xFF == 0,
            v1 == fec::shift(v0),
            v2 == fec::shift(v1),
            v3 == fec::shift(v2),
            v4 == fec::shift(v3),
            v5 == fec::shift(v4),
            v6 == fec::shift(v5),
            v7 == fec::shift(v6),
            v8 == fec::shift(v7),
            v9 == fec::shift(v8),
            v10 == fec::shift(v9),
            v11 == fec::shift(v10),
            v12 == fec::shift(v11),
            v13 == fec::shift(v12),
            v14 == fec::shift(v13),
            v15 == fec::shift(v14),
            v16 == fec::shift(v15),
    ;
}

/// Sixteen shifts are the identity, five shifts and twelve shifts added together.
proof fn lemma_sixteen_steps(v: u16)
    ensures
        steps(v, 16) == v ^ steps(v, 5) ^ steps(v, 12),
{
    let hi = v & 0xFF00;
    let lo = v & 0xFF;
    assert(v == hi ^ lo && hi & 0xFF == 0 && lo & 0xFF00 == 0) by (bit_vector)
        requires
            hi == v & 0xFF00,
            lo == v & 0xFF,
    ;
    lemma_sixteen_steps_half(hi);
    lemma_sixteen_steps_half(lo);
    lemma_steps_linear(hi, lo, 16);
    lemma_steps_linear(hi, lo, 5);
    lemma_steps_linear(hi, lo, 12);
    let a = steps(hi, 5);
    let b = steps(lo, 5);
    let c = steps(hi, 12);
    let d = steps(lo, 12);
    assert((hi ^ a ^ c) ^ (lo ^ b ^ d) == (hi ^ lo) ^ (a ^ b) ^ (c ^ d)) by (bit_vector);
}

/// Shifting a sum of selected words shifts each of them.
proof fn lemma_shift_combine(a: u16, v0: u16, v1: u16, v2: u16, v3: u16, v4: u16, v5: u16,
    v6: u16, v7: u16, v8: u16, v9: u16, v10: u16, v11: u16, v12: u16, v13: u16, v14: u16,
    v15: u16)
    ensures
        fec::shift(combine(a, v0, v1, v2, v3, v4, v5, v6, v7, v8, v9, v10, v11, v12, v13, v14,
            v15)) == combine(a, fec::shift(v0), fec::shift(v1), fec::shift(v2), fec::shift(v3),
            fec::shift(v4), fec::shift(v5), fec::shift(v6), fec::shift(v7), fec::shift(v8),
            fec::shift(v9), fec::shift(v10), fec::shift(v11), fec::shift(v12), fec::shift(v13),
            fec::shift(v14), fec::shift(v15)),
{
    let p0 = pick(a, 0x8000, v0);
    let p1 = pick(a, 0x4000, v1);
    let p2 = pick(a, 0x2000, v2);
    let p3 = pick(a, 0x1000, v3);
    let p4 = pick(a, 0x800, v4);
    let p5 = pick(a, 0x400, v5);
    let p6 = pick(a, 0x200, v6);
    let p7 = pick(a, 0x100, v7);
    let p8 = pick(a, 0x80, v8);
    let p9 = pick(a, 0x40, v9);
    let p10 = pick(a, 0x20, v10);
    let p11 = pick(a, 0x10, v11);
    let p12 = pick(a, 0x8, v12);
    let p13 = pick(a, 0x4, v13);
    let p14 = pick(a, 0x2, v14);
    let p15 = pick(a, 0x1, v15);
    let x1 = p0 ^ p1;
    let x2 = x1 ^ p2;
    let x3 = x2 ^ p3;
    let x4 = x3 ^ p4;
    let x5 = x4 ^ p5;
    let x6 = x5 ^ p6;
    let x7 = x6 ^ p7;
    let x8 = x7 ^ p8;
    let x9 = x8 ^ p9;
    let x10 = x9 ^ p10;
    let x11 = x10 ^ p11;
    let x12 = x11 ^ p12;
    let x13 = x12 ^ p13;
    let x14 = x13 ^ p14;
    let x15 = x14 ^ p15;
    lemma_shift_linear(p0, p1);
    lemma_shift_linear(x1, p2);
    lemma_shift_linear(x2, p3);
    lemma_shift_linear(x3, p4);
    lemma_shift_linear(x4, p5);
    lemma_shift_linear(x5, p6);
    lemma_shift_linear(x6, p7);
    lemma_shift_linear(x7, p8);
    lemma_shift_linear(x8, p9);
    lemma_shift_linear(x9, p10);
    lemma_shift_linear(x10, p11);
    lemma_shift_linear(x11, p12);
    lemma_shift_linear(x12, p13);
    lemma_shift_linear(x13, p14);
    lemma_shift_linear(x14, p15);
    lemma_shift_injective(0, 0);
}

proof fn lemma_xor_regroup(q0: u16, q1: u16, q2: u16, q3: u16, q4: u16, q5: u16, q6: u16, q7: u16,
    q8: u16, q9: u16, q10: u16, q11: u16, q12: u16, q13: u16, q14: u16, e0: u16, e5: u16,
    e12: u16)
    ensures
        q0 ^ q1 ^ q2 ^ q3 ^ q4 ^ q5 ^ q6 ^ q7 ^ q8 ^ q9 ^ q10 ^ q11 ^ q12 ^ q13 ^ q14 ^ (e0 ^ e5
            ^ e12) == e0 ^ q0 ^ q1 ^ q2 ^ q3 ^ (q4 ^ e5) ^ q5 ^ q6 ^ q7 ^ q8 ^ q9 ^ q10 ^ (q11
            ^ e12) ^ q12 ^ q13 ^ q14,
{
    assert(q0 ^ q1 ^ q2 ^ q3 ^ q4 ^ q5 ^ q6 ^ q7 ^ q8 ^ q9 ^ q10 ^ q11 ^ q12 ^ q13 ^ q14 ^ (e0
        ^ e5 ^ e12) == e0 ^ q0 ^ q1 ^ q2 ^ q3 ^ (q4 ^ e5) ^ q5 ^ q6 ^ q7 ^ q8 ^ q9 ^ q10 ^ (q11
        ^ e12) ^ q12 ^ q13 ^ q14) by (bit_vector);
}

proof fn lemma_pick_moved(a: u16, b: u16, from: u16, to: u16, v: u16)
    requires
        (b & to != 0) == (a & from != 0),
    ensures
        pick(b, to, v) == pick(a, from, v),
{
}

proof fn lemma_pick_added(a: u16, b: u16, from: u16, to: u16, v: u16)
    requires
        (b & to != 0) == ((a & from != 0) != (a & 1 != 0)),
    ensures
        pick(b, to, v) == pick(a, from, v) ^ pick(a, 1, v),
{
    assert(0 ^ v == v && v ^ v == 0 && v ^ 0 == v && 0u16 ^ 0u16 == 0) by (bit_vector);
}

/// Shifting the selector instead: the bit that falls out selects the sixteenth shift.
proof fn lemma_shift_selector(a: u16, v0: u16, v1: u16, v2: u16, v3: u16, v4: u16, v5: u16,
    v6: u16, v7: u16, v8: u16, v9: u16, v10: u16, v11: u16, v12: u16, v13: u16, v14: u16,
    v15: u16, v16: u16)
    requires
        v16 == v0 ^ v5 ^ v12,
    ensures
        combine(fec::shift(a), v0, v1, v2, v3, v4, v5, v6, v7, v8, v9, v10, v11, v12, v13, v14,
            v15) == combine(a, v1, v2, v3, v4, v5, v6, v7, v8, v9, v10, v11, v12, v13, v14, v15,
            v16),
{
    let b = fec::shift(a);
    assert(((b & 0x4000 != 0) == (a & 0x8000 != 0)) && ((b & 0x2000 != 0) == (a & 0x4000 != 0))
        && ((b & 0x1000 != 0) == (a & 0x2000 != 0)) && ((b & 0x800 != 0) == (a & 0x1000 != 0))
        && ((b & 0x400 != 0) == ((a & 0x800 != 0) != (a & 1 != 0))) && ((b & 0x200 != 0)
        == (a & 0x400 != 0)) && ((b & 0x100 != 0) == (a & 0x200 != 0)) && ((b & 0x80 != 0)
        == (a & 0x100 != 0)) && ((b & 0x40 != 0) == (a & 0x80 != 0)) && ((b & 0x20 != 0)
        == (a & 0x40 != 0)) && ((b & 0x10 != 0) == (a & 0x20 != 0)) && ((b & 0x8 != 0)
        == ((a & 0x10 != 0) != (a & 1 != 0))) && ((b & 0x4 != 0) == (a & 0x8 != 0))
        && ((b & 0x2 != 0) == (a & 0x4 != 0)) && ((b & 0x1 != 0) == (a & 0x2 != 0))
        && ((b & 0x8000 != 0) == (a & 1 != 0))) by (bit_vector)
        requires
            b == fec::shift(a),
    ;
    lemma_pick_moved(a, b, 1, 0x8000, v0);
    lemma_pick_moved(a, b, 0x8000, 0x4000, v1);
    lemma_pick_moved(a, b, 0x4000, 0x2000, v2);
    lemma_pick_moved(a, b, 0x2000, 0x1000, v3);
    lemma_pick_moved(a, b, 0x1000, 0x800, v4);
    lemma_pick_moved(a, b, 0x400, 0x200, v6);
    lemma_pick_moved(a, b, 0x200, 0x100, v7);
    lemma_pick_moved(a, b, 0x100, 0x80, v8);
    lemma_pick_moved(a, b, 0x80, 0x40, v9);
    lemma_pick_moved(a, b, 0x40, 0x20, v10);
    lemma_pick_moved(a, b, 0x20, 0x10, v11);
    lemma_pick_moved(a, b, 0x8, 0x4, v13);
    lemma_pick_moved(a, b, 0x4, 0x2, v14);
    lemma_pick_moved(a, b, 0x2, 0x1, v15);
    lemma_pick_added(a, b, 0x800, 0x400, v5);
    lemma_pick_added(a, b, 0x10, 8, v12);
    assert(pick(a, 1, v16) == pick(a, 1, v0) ^ pick(a, 1, v5) ^ pick(a, 1, v12)) by {
        assert(0u16 ^ 0u16 ^ 0u16 == 0) by (bit_vector);
    }
    lemma_xor_regroup(pick(a, 0x8000, v1), pick(a, 0x4000, v2), pick(a, 0x2000, v3), pick(a,
        0x1000, v4), pick(a, 0x800, v5), pick(a, 0x400, v6), pick(a, 0x200, v7), pick(a, 0x100,
        v8), pick(a, 0x80, v9), pick(a, 0x40, v10), pick(a, 0x20, v11), pick(a, 0x10, v12),
        pick(a, 0x8, v13), pick(a, 0x4, v14), pick(a, 0x2, v15), pick(a, 1, v0), pick(a, 1, v5),
        pick(a, 1, v12));
}

/// Multiplying commutes with shifting.
proof fn lemma_times_shift(a: u16, v: u16)
    ensures
        times(fec::shift(a), v) == fec::shift(times(a, v)),
{
    let v0 = steps(v, 0);
    let v1 = steps(v, 1);
    let v2 = steps(v, 2);
    let v3 = steps(v, 3);
    let v4 = steps(v, 4);
    let v5 = steps(v, 5);
    let v6 = steps(v, 6);
    let v7 = steps(v, 7);
    let v8 = steps(v, 8);
    let v9 = steps(v, 9);
    let v10 = steps(v, 10);
    let v11 = steps(v, 11);
    let v12 = steps(v, 12);
    let v13 = steps(v, 13);
    let v14 = steps(v, 14);
    let v15 = steps(v, 15);
    let v16 = steps(v, 16);
    lemma_sixteen_steps(v);
    lemma_shift_combine(a, v0, v1, v2, v3, v4, v5, v6, v7, v8, v9, v10, v11, v12, v13, v14, v15);
    lemma_shift_selector(a, v0, v1, v2, v3, v4, v5, v6, v7, v8, v9, v10, v11, v12, v13, v14, v15,
        v16);
}

/// Shifting `k` times is multiplying by the `k`-th power of the generator.
proof fn lemma_steps_times(v: u16, k: nat)
    ensures
        steps(v, k) == times(steps(0x8000, k), v),
    decreases k,
{
    if k > 0 {
        lemma_steps_times(v, (k - 1) as nat);
        lemma_times_shift(steps(0x8000, (k - 1) as nat), v);
    } else {
        let v0 = steps(v, 0);
        let v1 = steps(v, 1);
        let v2 = steps(v, 2);
        let v3 = steps(v, 3);
        let v4 = steps(v, 4);
        let v5 = steps(v, 5);
        let v6 = steps(v, 6);
        let v7 = steps(v, 7);
        let v8 = steps(v, 8);
        let v9 = steps(v, 9);
        let v10 = steps(v, 10);
        let v11 = steps(v, 11);
        let v12 = steps(v, 12);
        let v13 = steps(v, 13);
        let v14 = steps(v, 14);
        let v15 = steps(v, 15);
        assert(combine(0x8000, v0, v1, v2, v3, v4, v5, v6, v7, v8, v9, v10, v11, v12, v13, v14,
            v15) == v0) by (bit_vector);
    }
}

/// Products of the register values that the periods below are computed from.
spec fn product_table(a: u16, v: u16, c: u16) -> bool {
    ||| (a == 0x4000 && v == 0x4000 && c == 0x2000)
    ||| (a == 0x2000 && v == 0x2000 && c == 0x800)
    ||| (a == 0x800 && v == 0x800 && c == 0x80)
    ||| (a == 0x80 && v == 0x80 && c == 0x8408)
    ||| (a == 0x8408 && v == 0x8408 && c == 0xCEC)
    ||| (a == 0xCEC && v == 0xCEC && c == 0x861D)
    ||| (a == 0x861D && v == 0x861D && c == 0x3F75)
    ||| (a == 0x3F75 && v == 0x3F75 && c == 0x9471)
    ||| (a == 0x9471 && v == 0x9471 && c == 0x3FC8)
    ||| (a == 0x3FC8 && v == 0x3FC8 && c == 0x236C)
    ||| (a == 0x236C && v == 0x236C && c == 0xABF)
    ||| (a == 0xABF && v == 0xABF && c == 0x7955)
    ||| (a == 0x7955 && v == 0x7955 && c == 0x3811)
    ||| (a == 0x3811 && v == 0x3811 && c == 0x1A22)
    ||| (a == 0x1A22 && v == 0x1A22 && c == 0x4000)
    ||| (a == 0x861D && v == 0x3F75 && c == 0xD0A6)
    ||| (a == 0x8408 && v == 0xD0A6 && c == 0x2DA2)
    ||| (a == 0x80 && v == 0x2DA2 && c == 0x8635)
    ||| (a == 0x4000 && v == 0x8635 && c == 0xC712)
    ||| (a == 0xCEC && v == 0x236C && c == 0xE28F)
    ||| (a == 0x4000 && v == 0xE28F && c == 0xF54F)
    ||| (a == 0x3FC8 && v == 0x7955 && c == 0x52A)
    ||| (a == 0x861D && v == 0x52A && c == 0x6080)
    ||| (a == 0x80 && v == 0x6080 && c == 0x8468)
    ||| (a == 0x4000 && v == 0x8468 && c == 0x4234)
    ||| (a == 0xC712 && v == 0x8409 && c == 0x3DB6)
    ||| (a == 0xF54F && v == 0x8409 && c == 0xAE94)
    ||| (a == 0x4234 && v == 0x8409 && c == 0xD96D)
}

proof fn lemma_product_table(a: u16, v: u16, c: u16)
    requires
        product_table(a, v, c),
    ensures
        times(a, v) == c,
{
    let v0 = steps(v, 0);
    let v1 = steps(v, 1);
    let v2 = steps(v, 2);
    let v3 = steps(v, 3);
    let v4 = steps(v, 4);
    let v5 = steps(v, 5);
    let v6 = steps(v, 6);
    let v7 = steps(v, 7);
    let v8 = steps(v, 8);
    let v9 = steps(v, 9);
    let v10 = steps(v, 10);
    let v11 = steps(v, 11);
    let v12 = steps(v, 12);
    let v13 = steps(v, 13);
    let v14 = steps(v, 14);
    let v15 = steps(v, 15);
    assert(combine(a, v0, v1, v2, v3, v4, v5, v6, v7, v8, v9, v10, v11, v12, v13, v14, v15)
        == c) by (bit_vector)
        requires
            v == v0,
            v1 == fec::shift(v0),
            v2 == fec::shift(v1),
            v3 == fec::shift(v2),
            v4 == fec::shift(v3),
            v5 == fec::shift(v4),
            v6 == fec::shift(v5),
            v7 == fec::shift(v6),
            v8 == fec::shift(v7),
            v9 == fec::shift(v8),
            v10 == fec::shift(v9),
            v11 == fec::shift(v10),
            v12 == fec::shift(v11),
            v13 == fec::shift(v12),
            v14 == fec::shift(v13),
            v15 == fec::shift(v14),
            product_table(a, v, c),
    ;
}

/// From the `j`-th and `k`-th power of the generator to the `j + k`-th.
proof fn lemma_jump(j: nat, k: nat, cj: u16, ck: u16, c: u16)
    requires
        steps(0x8000, j) == cj,
        steps(0x8000, k) == ck,
        product_table(ck, cj, c),
    ensures
        steps(0x8000, j + k) == c,
{
    lemma_steps_add(0x8000, j, k);
    lemma_steps_times(cj, k);
    lemma_product_table(ck, cj, c);
}

/// The pattern that inverting two neighbouring bits leaves in the register.
spec fn pair_error() -> u16 {
    0x8409
}

/// The register returns to where it was after 32767 shifts, and the error pattern of a
/// bit pair does not after any of the maximal proper divisors of that number.
proof fn lemma_period()
    ensures
        forall|v: u16| #[trigger] steps(v, 32767) == v,
        steps(pair_error(), 217) != pair_error(),
        steps(pair_error(), 1057) != pair_error(),
        steps(pair_error(), 4681) != pair_error(),
{
    assert(steps(0x8000, 1) == 0x4000) by {
        reveal_with_fuel(steps, 2);
        assert(fec::shift(0x8000) == 0x4000) by (bit_vector);
    }
    lemma_jump(1, 1, 0x4000, 0x4000, 0x2000);
    lemma_jump(2, 2, 0x2000, 0x2000, 0x800);
    lemma_jump(4, 4, 0x800, 0x800, 0x80);
    lemma_jump(8, 8, 0x80, 0x80, 0x8408);
    lemma_jump(16, 16, 0x8408, 0x8408, 0xCEC);
    lemma_jump(32, 32, 0xCEC, 0xCEC, 0x861D);
    lemma_jump(64, 64, 0x861D, 0x861D, 0x3F75);
    lemma_jump(128, 128, 0x3F75, 0x3F75, 0x9471);
    lemma_jump(256, 256, 0x9471, 0x9471, 0x3FC8);
    lemma_jump(512, 512, 0x3FC8, 0x3FC8, 0x236C);
    lemma_jump(1024, 1024, 0x236C, 0x236C, 0xABF);
    lemma_jump(2048, 2048, 0xABF, 0xABF, 0x7955);
    lemma_jump(4096, 4096, 0x7955, 0x7955, 0x3811);
    lemma_jump(8192, 8192, 0x3811, 0x3811, 0x1A22);
    lemma_jump(16384, 16384, 0x1A22, 0x1A22, 0x4000);
    lemma_jump(128, 64, 0x3F75, 0x861D, 0xD0A6);
    lemma_jump(192, 16, 0xD0A6, 0x8408, 0x2DA2);
    lemma_jump(208, 8, 0x2DA2, 0x80, 0x8635);
    lemma_jump(216, 1, 0x8635, 0x4000, 0xC712);
    lemma_jump(1024, 32, 0x236C, 0xCEC, 0xE28F);
    lemma_jump(1056, 1, 0xE28F, 0x4000, 0xF54F);
    lemma_jump(4096, 512, 0x7955, 0x3FC8, 0x52A);
    lemma_jump(4608, 64, 0x52A, 0x861D, 0x6080);
    lemma_jump(4672, 8, 0x6080, 0x80, 0x8468);
    lemma_jump(4680, 1, 0x8468, 0x4000, 0x4234);
    assert forall|v: u16| #[trigger] steps(v, 32767) == v by {
        lemma_steps_add(0x8000, 32767, 1);
        lemma_steps_injective(steps(0x8000, 32767), 0x8000, 1);
        lemma_steps_times(v, 32767);
        lemma_steps_times(v, 0);
    }
    let d = pair_error();
    lemma_steps_times(d, 217);
    lemma_steps_times(d, 1057);
    lemma_steps_times(d, 4681);
    lemma_product_table(0xC712, d, 0x3DB6);
    lemma_product_table(0xF54F, d, 0xAE94);
    lemma_product_table(0x4234, d, 0xD96D);
}

/// The shortest positive period not above `m`.
proof fn lemma_shortest_period(v: u16, m: nat) -> (g: nat)
    requires
        m > 0,
        steps(v, m) == v,
    ensures
        0 < g <= m,
        steps(v, g) == v,
        forall|j: nat| 0 < j < g ==> #[trigger] steps(v, j) != v,
    decreases m,
{
    if exists|j: nat| 0 < j < m && #[trigger] steps(v, j) == v {
        let j = choose|j: nat| 0 < j < m && #[trigger] steps(v, j) == v;
        lemma_shortest_period(v, j)
    } else {
        m
    }
}

proof fn lemma_period_multiple(v: u16, g: nat, q: nat)
    requires
        steps(v, g) == v,
    ensures
        steps(v, g * q) == v,
    decreases q,
{
    if q > 0 {
        lemma_period_multiple(v, g, (q - 1) as nat);
        lemma_steps_add(v, g * (q - 1) as nat, g);
        assert(g * (q - 1) as nat + g == g * q) by (nonlinear_arith)
            requires
                q > 0,
        ;
    } else {
        assert(g * q == 0) by (nonlinear_arith)
            requires
                q == 0,
        ;
    }
}

/// A period leaves a period when it is divided by another.
proof fn lemma_period_remainder(v: u16, g: nat, n: nat)
    requires
        g > 0,
        steps(v, g) == v,
        steps(v, n) == v,
    ensures
        steps(v, n % g) == v,
{
    lemma_period_multiple(v, g, n / g);
    lemma_steps_add(v, g * (n / g), n % g);
    vstd::arithmetic::div_mod::lemma_fundamental_div_mod(n as int, g as int);
}

proof fn lemma_divisors(g: u32, q: u32)
    requires
        g * q == 32767,
        q >= 2,
    ensures
        4681u32 % g == 0 || 1057u32 % g == 0 || 217u32 % g == 0,
{
    assert(g <= 32767 && q <= 32767) by (nonlinear_arith)
        requires
            g * q == 32767,
            q >= 2,
    ;
    assert(4681u32 % g == 0 || 1057u32 % g == 0 || 217u32 % g == 0) by (bit_vector)
        requires
            g * q == 32767,
            2 <= q <= 32767,
            g <= 32767,
    ;
}

/// No shorter shift than 32767 leaves the error pattern of a bit or a bit pair in place.
proof fn lemma_no_shorter_period(m: nat)
    requires
        0 < m < 32767,
    ensures
        steps(1, m) != 1,
        steps(pair_error(), m) != pair_error(),
{
    let d = pair_error();
    if steps(d, m) == d {
        lemma_period();
        let g = lemma_shortest_period(d, m);
        assert(steps(d, 32767) == d);
        lemma_period_remainder(d, g, 32767);
        assert(32767nat % g == 0);
        vstd::arithmetic::div_mod::lemma_fundamental_div_mod(32767, g as int);
        let q = 32767nat / g;
        assert(g * q == 32767);
        assert(q >= 2) by (nonlinear_arith)
            requires
                g * q == 32767,
                g < 32767,
        ;
        assert(q <= 32767) by (nonlinear_arith)
            requires
                g * q == 32767,
                g > 0,
        ;
        lemma_divisors(g as u32, q as u32);
        let n: nat = if 4681nat % g == 0 {
            4681
        } else if 1057nat % g == 0 {
            1057
        } else {
            217
        };
        assert(n % g == 0);
        vstd::arithmetic::div_mod::lemma_fundamental_div_mod(n as int, g as int);
        lemma_period_multiple(d, g, n / g);
    }
    if steps(1, m) == 1 {
        assert(fec::shift(1) ^ 1 == 0x8409) by (bit_vector);
        lemma_steps_linear(fec::shift(1), 1, m);
        lemma_steps_add(1, 1, m);
        lemma_steps_add(1, m, 1);
        reveal_with_fuel(steps, 2);
    }
}

/// Inverting input bit `i` changes the register by that error's own trail.
proof fn lemma_register_flip(reg: u16, bits: Seq<bool>, i: int)
    requires
        0 <= i < bits.len(),
    ensures
        fec::register(reg, bits.update(i, !bits[i])) == fec::register(reg, bits) ^ steps(
            1,
            (bits.len() - i) as nat,
        ),
    decreases bits.len(),
{
    let n = bits.len();
    let flipped = bits.update(i, !bits[i]);
    let r = fec::register(reg, bits.drop_last());
    let u = fec::unit(bits.last());
    if i == n - 1 {
        assert(flipped.drop_last() =~= bits.drop_last());
        assert(r ^ fec::unit(!bits.last()) == (r ^ u) ^ 1) by {
            assert(1u16 ^ 1 == 0 && 0u16 ^ 1 == 1) by (bit_vector);
            assert((r ^ u) ^ 1 == r ^ (u ^ 1)) by (bit_vector);
        }
        lemma_shift_linear(r ^ u, 1);
        reveal_with_fuel(steps, 2);
    } else {
        lemma_register_flip(reg, bits.drop_last(), i);
        assert(flipped.drop_last() =~= bits.drop_last().update(i, !bits[i]));
        let e = steps(1, (n - 1 - i) as nat);
        assert((r ^ e) ^ u == (r ^ u) ^ e) by (bit_vector);
        lemma_shift_linear(r ^ u, e);
    }
}

/// Inverting a bit of the frame inverts that bit of its bit sequence.
proof fn lemma_flip_bits(frame: Seq<u8>, k: int)
    requires
        0 <= k < 8 * frame.len(),
    ensures
        fec::flip(frame, k).len() == frame.len(),
        bits::bytes_bits(fec::flip(frame, k)) == bits::bytes_bits(frame).update(
            k,
            !bits::bytes_bits(frame)[k],
        ),
        fec::flip(fec::flip(frame, k), k) == frame,
{
    let b = frame[k / 8];
    let j = (k % 8) as u8;
    let c = b ^ (1u8 << j);
    let s = bits::bytes_bits(fec::flip(frame, k));
    let t = bits::bytes_bits(frame).update(k, !bits::bytes_bits(frame)[k]);
    assert forall|i: int| 0 <= i < 8 * frame.len() implies s[i] == t[i] by {
        if i / 8 == k / 8 {
            let l = (i % 8) as u8;
            assert(((c >> l) & 1u8 == 1u8) == (((b >> l) & 1u8 == 1u8) != (l == j))) by (bit_vector)
                requires
                    c == b ^ (1u8 << j),
                    l < 8,
                    j < 8,
            ;
        }
    }
    assert(s =~= t);
    assert((b ^ (1u8 << j)) ^ (1u8 << j) == b) by (bit_vector);
    assert(fec::flip(fec::flip(frame, k), k) =~= frame);
}

/// Feeding one byte is adding it to the register and shifting eight times.
proof fn lemma_register_byte(reg: u16, bits: Seq<bool>, b: u8)
    ensures
        fec::register(reg, bits + bits::byte_bits(b)) == steps(
            fec::register(reg, bits) ^ (b as u16),
            8,
        ),
{
    let r = fec::register(reg, bits);
    let s = bits + bits::byte_bits(b);
    assert(s.take(bits.len() as int + 8) =~= s);
    assert(s.take(bits.len() as int) =~= bits);
    lemma_register_octet(reg, s, bits.len() as int);
    let u0 = fec::unit(bits::bit_of(b, 0));
    let u1 = fec::unit(bits::bit_of(b, 1));
    let u2 = fec::unit(bits::bit_of(b, 2));
    let u3 = fec::unit(bits::bit_of(b, 3));
    let u4 = fec::unit(bits::bit_of(b, 4));
    let u5 = fec::unit(bits::bit_of(b, 5));
    let u6 = fec::unit(bits::bit_of(b, 6));
    let u7 = fec::unit(bits::bit_of(b, 7));
    let x1 = fec::shift(r ^ u0);
    let x2 = fec::shift(x1 ^ u1);
    let x3 = fec::shift(x2 ^ u2);
    let x4 = fec::shift(x3 ^ u3);
    let x5 = fec::shift(x4 ^ u4);
    let x6 = fec::shift(x5 ^ u5);
    let x7 = fec::shift(x6 ^ u6);
    let x8 = fec::shift(x7 ^ u7);
    let y0 = r ^ (b as u16);
    let y1 = fec::shift(y0);
    let y2 = fec::shift(y1);
    let y3 = fec::shift(y2);
    let y4 = fec::shift(y3);
    let y5 = fec::shift(y4);
    let y6 = fec::shift(y5);
    let y7 = fec::shift(y6);
    let y8 = fec::shift(y7);
    assert(x8 == y8) by (bit_vector)
        requires
            u0 == if (b >> 0u8) & 1u8 == 1u8 { 1u16 } else { 0u16 },
            u1 == if (b >> 1u8) & 1u8 == 1u8 { 1u16 } else { 0u16 },
            u2 == if (b >> 2u8) & 1u8 == 1u8 { 1u16 } else { 0u16 },
            u3 == if (b >> 3u8) & 1u8 == 1u8 { 1u16 } else { 0u16 },
            u4 == if (b >> 4u8) & 1u8 == 1u8 { 1u16 } else { 0u16 },
            u5 == if (b >> 5u8) & 1u8 == 1u8 { 1u16 } else { 0u16 },
            u6 == if (b >> 6u8) & 1u8 == 1u8 { 1u16 } else { 0u16 },
            u7 == if (b >> 7u8) & 1u8 == 1u8 { 1u16 } else { 0u16 },
            x1 == fec::shift(r ^ u0),
            x2 == fec::shift(x1 ^ u1),
            x3 == fec::shift(x2 ^ u2),
            x4 == fec::shift(x3 ^ u3),
            x5 == fec::shift(x4 ^ u4),
            x6 == fec::shift(x5 ^ u5),
            x7 == fec::shift(x6 ^ u6),
            x8 == fec::shift(x7 ^ u7),
            y0 == r ^ (b as u16),
            y1 == fec::shift(y0),
            y2 == fec::shift(y1),
            y3 == fec::shift(y2),
            y4 == fec::shift(y3),
            y5 == fec::shift(y4),
            y6 == fec::shift(y5),
            y7 == fec::shift(y6),
            y8 == fec::shift(y7),
    ;
    reveal_with_fuel(steps, 9);
}

/// The register over eight more bits, bit by bit.
proof fn lemma_register_octet(reg: u16, s: Seq<bool>, at: int)
    requires
        0 <= at,
        s.len() >= at + 8,
    ensures
        ({
            let x0 = fec::register(reg, s.take(at));
            let x1 = fec::shift(x0 ^ fec::unit(s[at]));
            let x2 = fec::shift(x1 ^ fec::unit(s[at + 1]));
            let x3 = fec::shift(x2 ^ fec::unit(s[at + 2]));
            let x4 = fec::shift(x3 ^ fec::unit(s[at + 3]));
            let x5 = fec::shift(x4 ^ fec::unit(s[at + 4]));
            let x6 = fec::shift(x5 ^ fec::unit(s[at + 5]));
            let x7 = fec::shift(x6 ^ fec::unit(s[at + 6]));
            fec::register(reg, s.take(at + 8)) == fec::shift(x7 ^ fec::unit(s[at + 7]))
        }),
{
    assert forall|i: int| 0 <= i < s.len() implies #[trigger] fec::register(reg, s.take(i + 1))
        == fec::shift(fec::register(reg, s.take(i)) ^ fec::unit(s[i])) by {
        assert(s.take(i + 1).drop_last() =~= s.take(i));
    }
    assert(s.take(at + 1).len() == at + 1);
    let r1 = fec::register(reg, s.take(at + 1));
    let r2 = fec::register(reg, s.take(at + 1 + 1));
    let r3 = fec::register(reg, s.take(at + 2 + 1));
    let r4 = fec::register(reg, s.take(at + 3 + 1));
    let r5 = fec::register(reg, s.take(at + 4 + 1));
    let r6 = fec::register(reg, s.take(at + 5 + 1));
    let r7 = fec::register(reg, s.take(at + 6 + 1));
    let r8 = fec::register(reg, s.take(at + 7 + 1));
    assert(r2 == fec::register(reg, s.take(at + 2)));
    assert(r8 == fec::register(reg, s.take(at + 8)));
}

/// A frame checks out exactly when the register over all of it, check sequence
/// included, ends at one fixed value.
pub proof fn law_residue(frame: Seq<u8>)
    requires
        frame.len() >= 2,
    ensures
        fec::fcs_ok(frame) <==> fec::register(0xFFFF, bits::bytes_bits(frame)) == 0xF0B8,
{
    let n = frame.len();
    let p = fec::payload_of(frame);
    let lo = frame[n - 2];
    let hi = frame[n - 1];
    let r = fec::register(0xFFFF, bits::bytes_bits(p));
    bits::lemma_bytes_bits_push(p, lo);
    bits::lemma_bytes_bits_push(p.push(lo), hi);
    assert(p.push(lo).push(hi) =~= frame);
    lemma_register_byte(0xFFFF, bits::bytes_bits(p), lo);
    lemma_register_byte(0xFFFF, bits::bytes_bits(p.push(lo)), hi);
    let mid = steps(r ^ (lo as u16), 8);
    let end = steps(mid ^ (hi as u16), 8);
    // The high byte is not touched by the first eight shifts but for its position.
    let fcs = !r;
    let word = (lo as u16) | ((hi as u16) << 8);
    assert(steps((hi as u16) << 8, 8) == hi as u16) by {
        let y0 = (hi as u16) << 8;
        let y1 = fec::shift(y0);
        let y2 = fec::shift(y1);
        let y3 = fec::shift(y2);
        let y4 = fec::shift(y3);
        let y5 = fec::shift(y4);
        let y6 = fec::shift(y5);
        let y7 = fec::shift(y6);
        let y8 = fec::shift(y7);
        reveal_with_fuel(steps, 9);
        assert(y8 == hi as u16) by (bit_vector)
            requires
                y0 == (hi as u16) << 8,
                y1 == fec::shift(y0),
                y2 == fec::shift(y1),
                y3 == fec::shift(y2),
                y4 == fec::shift(y3),
                y5 == fec::shift(y4),
                y6 == fec::shift(y5),
                y7 == fec::shift(y6),
                y8 == fec::shift(y7),
        ;
    }
    lemma_steps_linear(r ^ (lo as u16), (hi as u16) << 8, 8);
    lemma_steps_add((r ^ (lo as u16)) ^ ((hi as u16) << 8), 8, 8);
    assert((r ^ (lo as u16)) ^ ((hi as u16) << 8) == r ^ word) by (bit_vector)
        requires
            word == (lo as u16) | ((hi as u16) << 8),
    ;
    assert(end == steps(r ^ word, 16));
    lemma_ones_residue();
    lemma_steps_injective(r ^ word, 0xFFFF, 16);
    assert((r ^ word == 0xFFFF) == ((fcs & 0xFF) as u8 == lo && (fcs >> 8) as u8 == hi))
        by (bit_vector)
        requires
            fcs == !r,
            word == (lo as u16) | ((hi as u16) << 8),
    ;
    let w = fec::with_fcs(p);
    if r ^ word == 0xFFFF {
        assert(frame =~= w);
    } else {
        assert(w[n - 2] != frame[n - 2] || w[n - 1] != frame[n - 1]);
    }
}

/// Sixteen shifts take the all-ones register to the residue.
proof fn lemma_ones_residue()
    ensures
        steps(0xFFFF, 16) == 0xF0B8,
{
    lemma_sixteen_steps(0xFFFF);
    let v = 0xFFFFu16;
    assert(steps(v, 0) == v);
    let v1 = steps(v, 1);
    let v2 = steps(v, 2);
    let v3 = steps(v, 3);
    let v4 = steps(v, 4);
    let v5 = steps(v, 5);
    let v6 = steps(v, 6);
    let v7 = steps(v, 7);
    let v8 = steps(v, 8);
    let v9 = steps(v, 9);
    let v10 = steps(v, 10);
    let v11 = steps(v, 11);
    let v12 = steps(v, 12);
    assert(v ^ v5 ^ v12 == 0xF0B8) by (bit_vector)
        requires
            v == 0xFFFF,
            v1 == fec::shift(v),
            v2 == fec::shift(v1),
            v3 == fec::shift(v2),
            v4 == fec::shift(v3),
            v5 == fec::shift(v4),
            v6 == fec::shift(v5),
            v7 == fec::shift(v6),
            v8 == fec::shift(v7),
            v9 == fec::shift(v8),
            v10 == fec::shift(v9),
            v11 == fec::shift(v10),
            v12 == fec::shift(v11),
    ;
}

/// What the register shows of a frame with one bit inverted.
proof fn lemma_flip_register(frame: Seq<u8>, k: int)
    requires
        0 <= k < 8 * frame.len(),
    ensures
        fec::register(0xFFFF, bits::bytes_bits(fec::flip(frame, k))) == fec::register(
            0xFFFF,
            bits::bytes_bits(frame),
        ) ^ steps(1, (8 * frame.len() - k) as nat),
{
    lemma_flip_bits(frame, k);
    lemma_register_flip(0xFFFF, bits::bytes_bits(frame), k);
}

/// What the register shows of a frame with two neighbouring bits inverted.
proof fn lemma_flip_pair_register(frame: Seq<u8>, k: int)
    requires
        0 <= k < 8 * frame.len() - 1,
    ensures
        fec::flip_pair(frame, k).len() == frame.len(),
        fec::register(0xFFFF, bits::bytes_bits(fec::flip_pair(frame, k))) == fec::register(
            0xFFFF,
            bits::bytes_bits(frame),
        ) ^ steps(pair_error(), (8 * frame.len() - k - 1) as nat),
{
    let m = (8 * frame.len() - k - 1) as nat;
    lemma_flip_bits(frame, k);
    lemma_flip_register(frame, k);
    lemma_flip_bits(fec::flip(frame, k), k + 1);
    lemma_flip_register(fec::flip(frame, k), k + 1);
    let r = fec::register(0xFFFF, bits::bytes_bits(frame));
    let a = steps(1, (m + 1) as nat);
    let b = steps(1, m);
    assert((r ^ a) ^ b == r ^ (a ^ b)) by (bit_vector);
    lemma_steps_add(1, 1, m);
    lemma_steps_linear(fec::shift(1), 1, m);
    reveal_with_fuel(steps, 2);
    assert(fec::shift(1) ^ 1 == 0x8409) by (bit_vector);
}

/// Number of ones in the register, modulo two.
spec fn parity(v: u16) -> u16 {
    (v ^ (v >> 1) ^ (v >> 2) ^ (v >> 3) ^ (v >> 4) ^ (v >> 5) ^ (v >> 6) ^ (v >> 7) ^ (v >> 8) ^ (v
        >> 9) ^ (v >> 10) ^ (v >> 11) ^ (v >> 12) ^ (v >> 13) ^ (v >> 14) ^ (v >> 15)) & 1
}

proof fn lemma_steps_parity(v: u16, k: nat)
    ensures
        parity(steps(v, k)) == parity(v),
    decreases k,
{
    if k > 0 {
        lemma_steps_parity(v, (k - 1) as nat);
        let w = steps(v, (k - 1) as nat);
        let x = fec::shift(w);
        assert(parity(x) == parity(w)) by (bit_vector)
            requires
                x == fec::shift(w),
        ;
    }
}

/// The first valid candidate is the one found.
proof fn lemma_first_valid_at(candidate: spec_fn(int) -> Seq<u8>, from: int, n: int, k: int)
    requires
        from <= k < n,
        fec::fcs_ok(candidate(k)),
        forall|j: int| from <= j < k ==> !fec::fcs_ok(#[trigger] candidate(j)),
    ensures
        fec::first_valid(candidate, from, n) == Some(fec::payload_of(candidate(k))),
    decreases k - from,
{
    if from < k {
        assert(!fec::fcs_ok(candidate(from)));
        lemma_first_valid_at(candidate, from + 1, n, k);
    }
}

proof fn lemma_first_valid_none(candidate: spec_fn(int) -> Seq<u8>, from: int, n: int)
    requires
        forall|j: int| from <= j < n ==> !fec::fcs_ok(#[trigger] candidate(j)),
    ensures
        fec::first_valid(candidate, from, n) is None,
    decreases n - from,
{
    if from < n {
        assert(!fec::fcs_ok(candidate(from)));
        lemma_first_valid_none(candidate, from + 1, n);
    }
}

/// Two error trails of one pattern differ unless they are a whole period apart.
proof fn lemma_trails_differ(v: u16, a: nat, b: nat)
    requires
        v == 1 || v == pair_error(),
        b < a,
        a - b < 32767,
    ensures
        steps(v, a) != steps(v, b),
{
    lemma_steps_add(v, (a - b) as nat, b);
    lemma_no_shorter_period((a - b) as nat);
    lemma_steps_injective(steps(v, (a - b) as nat), v, b);
}

proof fn lemma_xor_cancel(r: u16, a: u16, b: u16)
    ensures
        (r ^ a) ^ b == r <==> a == b,
        r ^ a == r <==> a == 0,
{
    assert((r ^ a) ^ b == r <==> a == b) by (bit_vector);
    assert(r ^ a == r <==> a == 0) by (bit_vector);
}

/// A payload sent with its check sequence comes back unchanged in every mode.
pub proof fn law_clean_frame_validates(payload: Seq<u8>, fix_bits: FixBits)
    ensures
        fec::validated(fec::with_fcs(payload), fix_bits) == Some(payload),
{
    let w = fec::with_fcs(payload);
    assert(fec::payload_of(w) =~= payload);
}

/// A valid frame with one bit inverted is never taken for a valid frame.
pub proof fn law_single_error_detected(frame: Seq<u8>, k: int)
    requires
        fec::fcs_ok(frame),
        0 <= k < 8 * frame.len(),
    ensures
        !fec::fcs_ok(fec::flip(frame, k)),
{
    let n = (8 * frame.len() - k) as nat;
    law_residue(frame);
    lemma_flip_bits(frame, k);
    law_residue(fec::flip(frame, k));
    lemma_flip_register(frame, k);
    lemma_steps_injective(1, 0, n);
    lemma_xor_cancel(0xF0B8, steps(1, n), 0);
}

/// A valid frame with two neighbouring bits inverted is never taken for a valid frame.
pub proof fn law_pair_error_detected(frame: Seq<u8>, k: int)
    requires
        fec::fcs_ok(frame),
        0 <= k < 8 * frame.len() - 1,
    ensures
        !fec::fcs_ok(fec::flip_pair(frame, k)),
{
    let n = (8 * frame.len() - k - 1) as nat;
    law_residue(frame);
    lemma_flip_pair_register(frame, k);
    law_residue(fec::flip_pair(frame, k));
    lemma_steps_injective(pair_error(), 0, n);
    lemma_xor_cancel(0xF0B8, steps(pair_error(), n), 0);
}

/// One inverted bit anywhere in the first 32767 bits of a valid frame is repaired: both
/// recovering modes give the payload back, and without recovery the frame is refused.
pub proof fn law_single_error_recovered(frame: Seq<u8>, k: int)
    requires
        fec::fcs_ok(frame),
        0 <= k < 8 * frame.len(),
        k < 32767,
    ensures
        fec::validated(fec::flip(frame, k), FixBits::Off) is None,
        fec::validated(fec::flip(frame, k), FixBits::Single) == Some(fec::payload_of(frame)),
        fec::validated(fec::flip(frame, k), FixBits::Double) == Some(fec::payload_of(frame)),
{
    let bad = fec::flip(frame, k);
    let total = 8 * frame.len() as int;
    law_single_error_detected(frame, k);
    law_residue(frame);
    lemma_flip_bits(frame, k);
    lemma_flip_register(frame, k);
    let candidate = |j: int| fec::flip(bad, j);
    assert forall|j: int| 0 <= j < k implies !fec::fcs_ok(#[trigger] candidate(j)) by {
        lemma_flip_bits(bad, j);
        lemma_flip_register(bad, j);
        law_residue(candidate(j));
        lemma_trails_differ(1, (total - j) as nat, (total - k) as nat);
        lemma_xor_cancel(0xF0B8, steps(1, (total - k) as nat), steps(1, (total - j) as nat));
    }
    assert(candidate(k) == frame);
    lemma_first_valid_at(candidate, 0, total, k);
}

/// Two neighbouring bits inverted, the first of them among the first 32767 bits of a
/// valid frame: adjacent-pair recovery gives the payload back, and single-bit recovery
/// refuses the frame rather than mistake it for another.
pub proof fn law_pair_error_recovered(frame: Seq<u8>, k: int)
    requires
        fec::fcs_ok(frame),
        0 <= k < 8 * frame.len() - 1,
        k < 32767,
    ensures
        fec::validated(fec::flip_pair(frame, k), FixBits::Off) is None,
        fec::validated(fec::flip_pair(frame, k), FixBits::Single) is None,
        fec::validated(fec::flip_pair(frame, k), FixBits::Double) == Some(fec::payload_of(frame)),
{
    let bad = fec::flip_pair(frame, k);
    let total = 8 * frame.len() as int;
    let m = (total - k - 1) as nat;
    law_pair_error_detected(frame, k);
    law_residue(frame);
    lemma_flip_pair_register(frame, k);
    let single = |j: int| fec::flip(bad, j);
    assert forall|j: int| 0 <= j < total implies !fec::fcs_ok(#[trigger] single(j)) by {
        lemma_flip_bits(bad, j);
        lemma_flip_register(bad, j);
        law_residue(single(j));
        lemma_steps_parity(pair_error(), m);
        lemma_steps_parity(1, (total - j) as nat);
        assert(parity(0x8409) == 0 && parity(1) == 1) by (bit_vector);
        lemma_xor_cancel(0xF0B8, steps(pair_error(), m), steps(1, (total - j) as nat));
    }
    lemma_first_valid_none(single, 0, total);
    let pair = |j: int| fec::flip_pair(bad, j);
    assert forall|j: int| 0 <= j < k implies !fec::fcs_ok(#[trigger] pair(j)) by {
        lemma_flip_pair_register(bad, j);
        law_residue(pair(j));
        lemma_trails_differ(pair_error(), (total - j - 1) as nat, m);
        lemma_xor_cancel(
            0xF0B8,
            steps(pair_error(), m),
            steps(pair_error(), (total - j - 1) as nat),
        );
    }
    assert(pair(k) == frame) by {
        lemma_flip_bits(frame, k);
        lemma_flip_bits(fec::flip(frame, k), k + 1);
        lemma_flip_bits(bad, k);
        lemma_flip_bits(fec::flip(bad, k), k + 1);
        bits::lemma_bytes_bits_injective(pair(k), frame);
        assert(bits::bytes_bits(pair(k)) =~= bits::bytes_bits(frame));
    }
    lemma_first_valid_at(pair, 0, total - 1, k);
}

/// Whatever validation yields, the frame that carries it is the received frame, or
/// differs from it in one bit, or in two neighbouring bits, as the mode allows.
pub proof fn law_recovery_is_minimal(frame: Seq<u8>, fix_bits: FixBits)
    requires
        fec::validated(frame, fix_bits) is Some,
    ensures
        ({
            let sent = fec::with_fcs(fec::validated(frame, fix_bits)->0);
            ||| sent == frame
            ||| fix_bits != FixBits::Off && exists|k: int|
                0 <= k < 8 * frame.len() && sent == #[trigger] fec::flip(frame, k)
            ||| fix_bits == FixBits::Double && exists|k: int|
                0 <= k < 8 * frame.len() - 1 && sent == #[trigger] fec::flip_pair(frame, k)
        }),
{
    if !fec::fcs_ok(frame) {
        if fec::single_fix(frame) is Some {
            let candidate = |j: int| fec::flip(frame, j);
            let k = lemma_first_valid_some(candidate, 0, 8 * frame.len() as int);
            assert(candidate(k) == fec::flip(frame, k));
        } else {
            let candidate = |j: int| fec::flip_pair(frame, j);
            let k = lemma_first_valid_some(candidate, 0, 8 * frame.len() - 1);
            assert(candidate(k) == fec::flip_pair(frame, k));
        }
    }
}

proof fn lemma_first_valid_some(candidate: spec_fn(int) -> Seq<u8>, from: int, n: int) -> (k: int)
    requires
        fec::first_valid(candidate, from, n) is Some,
    ensures
        from <= k < n,
        fec::fcs_ok(candidate(k)),
        fec::first_valid(candidate, from, n) == Some(fec::payload_of(candidate(k))),
    decreases n - from,
{
    if fec::fcs_ok(candidate(from)) {
        from
    } else {
        lemma_first_valid_some(candidate, from + 1, n)
    }
}

/// Inverting bit `k` changes that bit, counted in transmission order, and no other; inverting
/// a pair changes bits `k` and `k + 1` and no other.
pub proof fn law_flips_by_bit(frame: Seq<u8>, k: int, i: int)
    requires
        0 <= k < 8 * frame.len(),
        0 <= i < 8 * frame.len(),
    ensures
        fec::flip(frame, k).len() == frame.len(),
        bits::bytes_bits(fec::flip(frame, k))[i] == (bits::bytes_bits(frame)[i] != (i == k)),
        k + 1 < 8 * frame.len() ==> fec::flip_pair(frame, k).len() == frame.len()
            && bits::bytes_bits(fec::flip_pair(frame, k))[i] == (bits::bytes_bits(frame)[i] != (i
            == k || i == k + 1)),
{
    lemma_flip_bits(frame, k);
    if k + 1 < 8 * frame.len() {
        lemma_flip_bits(fec::flip(frame, k), k + 1);
    }
}

/// The check register takes one bit after the other: a bit that differs from the lowest bit of
/// the register folds the generator in as the register moves down, and it does not matter
/// how the bits are split. The check sequence is the complement of what all ones become, and
/// goes behind the payload, low byte first.
pub proof fn law_check_register(reg: u16, a: Seq<bool>, b: Seq<bool>, bit: bool, payload: Seq<u8>)
    ensures
        fec::register(reg, Seq::<bool>::empty()) == reg,
        fec::register(reg, a + b) == fec::register(fec::register(reg, a), b),
        fec::register(reg, seq![bit]) == if bit != (reg % 2 == 1) {
            (reg / 2) ^ 0x8408
        } else {
            reg / 2
        },
        fec::fcs_of(payload) == 0xFFFF - fec::register(0xFFFF, bits::bytes_bits(payload)),
        ({
            let sent = fec::with_fcs(payload);
            let n = payload.len() as int;
            &&& sent.len() == n + 2
            &&& sent.take(n) == payload
            &&& sent[n] + 256 * sent[n + 1] == fec::fcs_of(payload)
        }),
{
    lemma_register_add(reg, a, b);
    assert(seq![bit].drop_last() =~= Seq::<bool>::empty());
    reveal_with_fuel(fec::register, 2);
    let u: u16 = fec::unit(bit);
    let moved: u16 = reg ^ u;
    let fed: u16 = fec::shift(moved);
    assert(fed == if (u == 1) != (reg % 2 == 1) {
        (reg / 2) ^ 0x8408
    } else {
        reg / 2
    }) by (bit_vector)
        requires
            u == 0 || u == 1,
            moved == reg ^ u,
            fed == if moved & 1 == 1 {
                (moved >> 1) ^ 0x8408
            } else {
                moved >> 1
            },
    ;
    let r: u16 = fec::register(0xFFFF, bits::bytes_bits(payload));
    let fcs: u16 = fec::fcs_of(payload);
    let low: u8 = (fcs & 0xFF) as u8;
    let high: u8 = (fcs >> 8) as u8;
    assert(fcs == 0xFFFF - r && low + 256 * high == fcs) by (bit_vector)
        requires
            fcs == !r,
            low == (fcs & 0xFF) as u8,
            high == (fcs >> 8) as u8,
    ;
    assert(fec::with_fcs(payload).take(payload.len() as int) =~= payload);
}

proof fn lemma_register_add(reg: u16, a: Seq<bool>, b: Seq<bool>)
    ensures
        fec::register(reg, a + b) == fec::register(fec::register(reg, a), b),
    decreases b.len(),
{
    if b.len() > 0 {
        lemma_register_add(reg, a, b.drop_last());
        assert((a + b).drop_last() =~= a + b.drop_last());
    } else {
        assert(a + b =~= a);
    }
}

/// A frame that is refused with recovery from single errors and from pairs is no frame that was
/// sent with at most such an error: no inverted bit, and no inverted pair of neighbours, makes
/// it valid.
pub proof fn law_refused_means_beyond_repair(frame: Seq<u8>, fix_bits: FixBits)
    requires
        fec::validated(frame, fix_bits) is None,
    ensures
        !fec::fcs_ok(frame),
        frame.len() >= 2 && fix_bits != FixBits::Off ==> forall|k: int|
            0 <= k < 8 * frame.len() ==> !fec::fcs_ok(#[trigger] fec::flip(frame, k)),
        frame.len() >= 2 && fix_bits == FixBits::Double ==> forall|k: int|
            0 <= k < 8 * frame.len() - 1 ==> !fec::fcs_ok(#[trigger] fec::flip_pair(frame, k)),
{
    if frame.len() >= 2 && fix_bits != FixBits::Off {
        let single = |j: int| fec::flip(frame, j);
        lemma_none_valid(single, 0, 8 * frame.len() as int);
        assert forall|k: int| 0 <= k < 8 * frame.len() implies !fec::fcs_ok(
            #[trigger] fec::flip(frame, k),
        ) by {
            assert(!fec::fcs_ok(single(k)));
        }
        if fix_bits == FixBits::Double {
            let pair = |j: int| fec::flip_pair(frame, j);
            lemma_none_valid(pair, 0, 8 * frame.len() - 1);
            assert forall|k: int| 0 <= k < 8 * frame.len() - 1 implies !fec::fcs_ok(
                #[trigger] fec::flip_pair(frame, k),
            ) by {
                assert(!fec::fcs_ok(pair(k)));
            }
        }
    }
}

proof fn lemma_none_valid(candidate: spec_fn(int) -> Seq<u8>, from: int, n: int)
    requires
        fec::first_valid(candidate, from, n) is None,
    ensures
        forall|k: int| from <= k < n ==> !fec::fcs_ok(#[trigger] candidate(k)),
    decreases n - from,
{
    if from < n {
        lemma_none_valid(candidate, from + 1, n);
    }
}

} // verus!
