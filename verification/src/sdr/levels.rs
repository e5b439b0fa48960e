//! Level statistics of the raw samples over a reporting window.
//!
//! Samples are unsigned bytes with the zero level at 127.4. All arithmetic here is exact:
//! deviations are counted in tenths of a step, and powers are kept as fractions.

use vstd::prelude::*;

verus! {

/// The zero level, and full scale, in tenths of a step.
pub const FULL_SCALE: u64 = 1274;

/// Deviation of a sample from the zero level, in tenths of a step.
pub open spec fn deviation(b: u8) -> int {
    10 * b - 1274
}

/// Size of that deviation.
pub open spec fn magnitude(b: u8) -> int {
    if deviation(b) >= 0 {
        deviation(b)
    } else {
        -deviation(b)
    }
}

/// Sum of the squared deviations.
pub open spec fn energy_of(bytes: Seq<u8>) -> int
    decreases bytes.len(),
{
    if bytes.len() == 0 {
        0
    } else {
        energy_of(bytes.drop_last()) + deviation(bytes.last()) * deviation(bytes.last())
    }
}

/// A sample at the rails of the converter.
pub open spec fn railed(b: u8) -> bool {
    b == 0 || b == 255
}

/// Number of samples at the rails.
pub open spec fn railed_in(bytes: Seq<u8>) -> int
    decreases bytes.len(),
{
    if bytes.len() == 0 {
        0
    } else {
        railed_in(bytes.drop_last()) + if railed(bytes.last()) {
            1int
        } else {
            0
        }
    }
}

/// The sample farthest from the zero level, of `so_far` and `bytes`.
pub open spec fn farthest(so_far: Option<u8>, bytes: Seq<u8>) -> Option<u8>
    decreases bytes.len(),
{
    if bytes.len() == 0 {
        so_far
    } else {
        let before = farthest(so_far, bytes.drop_last());
        match before {
            Some(p) if magnitude(bytes.last()) <= magnitude(p) => before,
            _ => Some(bytes.last()),
        }
    }
}

/// The samples of a buffer that come in pairs.
pub open spec fn paired(buf: Seq<u8>) -> Seq<u8> {
    buf.take(2 * (buf.len() / 2) as int)
}

/// Power of one buffer: `energy / pairs` is its mean in squared tenths of a step.
#[derive(Debug, Clone, Copy, PartialEq, Eq, Structural)]
pub struct BlockPower {
    pub energy: u128,
    pub pairs: u64,
}

/// The mean power of `a` is at most that of `b`.
pub open spec fn quieter(a: BlockPower, b: BlockPower) -> bool {
    a.energy * b.pairs <= b.energy * a.pairs
}

/// Every block has samples.
pub open spec fn all_filled(blocks: Seq<BlockPower>) -> bool {
    forall|i: int| 0 <= i < blocks.len() ==> (#[trigger] blocks[i]).pairs > 0
}

/// Blocks in the order of their mean power.
pub open spec fn in_order(blocks: Seq<BlockPower>) -> bool {
    forall|i: int, j: int|
        0 <= i <= j < blocks.len() ==> quieter(#[trigger] blocks[i], #[trigger] blocks[j])
}

/// Position of the tenth percentile among `n` ordered values, to the nearest.
pub open spec fn floor_rank(n: int) -> int {
    (n - 1 + 5) / 10
}

/// `r` stands at position `k` of the blocks in order of their mean power.
pub open spec fn ranks_at(blocks: Seq<BlockPower>, r: BlockPower, k: int) -> bool {
    exists|order: Seq<BlockPower>|
        #![trigger in_order(order)]
        in_order(order) && order.to_multiset() == blocks.to_multiset() && 0 <= k < order.len()
            && order[k] == r
}

/// Statistics over a reporting window.
#[derive(Debug, Clone)]
pub struct LevelStats {
    /// Power of each buffer, so that the noise floor can be a percentile and not a mean
    /// that every transmission pollutes.
    pub block_power: Vec<BlockPower>,
    /// Samples seen.
    pub bytes: u64,
    /// Samples at the rails.
    pub clipped: u64,
    /// The sample farthest from the zero level.
    pub peak: Option<u8>,
}

/// `after` is `before` with one buffer taken into account.
pub open spec fn accounts(before: LevelStats, after: LevelStats, buf: Seq<u8>) -> bool {
    &&& after.bytes == before.bytes + buf.len()
    &&& after.clipped == before.clipped + railed_in(paired(buf))
    &&& after.peak == farthest(before.peak, paired(buf))
    &&& after.block_power@ == if buf.len() >= 2 {
        before.block_power@.push(
            BlockPower {
                energy: energy_of(paired(buf)) as u128,
                pairs: (buf.len() / 2) as u64,
            },
        )
    } else {
        before.block_power@
    }
}

impl LevelStats {
    /// Counts fit each other.
    pub open spec fn wf(&self) -> bool {
        self.clipped <= self.bytes && all_filled(self.block_power@)
    }

    /// Statistics of an empty window.
    pub fn new() -> (r: Self)
        ensures
            r.wf(),
            r.block_power@ == Seq::<BlockPower>::empty(),
            r.bytes == 0,
            r.clipped == 0,
            r.peak is None,
    {
        LevelStats { block_power: Vec::new(), bytes: 0, clipped: 0, peak: None }
    }

    /// Take one buffer into account. A last byte without a partner counts as seen but
    /// is not measured.
    pub fn accumulate(&mut self, buf: &[u8])
        requires
            old(self).wf(),
            old(self).bytes + buf@.len() <= u64::MAX,
        ensures
            final(self).wf(),
            final(self).bytes == old(self).bytes + buf@.len(),
            final(self).clipped == old(self).clipped + railed_in(paired(buf@)),
            final(self).peak == farthest(old(self).peak, paired(buf@)),
            final(self).block_power@ == if buf@.len() / 2 > 0 {
                old(self).block_power@.push(
                    BlockPower {
                        energy: energy_of(paired(buf@)) as u128,
                        pairs: (buf@.len() / 2) as u64,
                    },
                )
            } else {
                old(self).block_power@
            },
            0 <= energy_of(paired(buf@)) <= u128::MAX,
            accounts(*old(self), *final(self), buf@),
    {
        let pairs: usize = buf.len() / 2;
        let n: usize = 2 * pairs;
        let ghost used = paired(buf@);
        let ghost start = *self;
        let mut energy: u128 = 0;
        let mut clipped: u64 = 0;
        let mut i: usize = 0;
        assert(used.take(0) =~= Seq::<u8>::empty());
        while i < n
            invariant
                i <= n <= buf@.len(),
                used == paired(buf@),
                n == used.len(),
                start.peak == old(self).peak,
                self.block_power == start.block_power,
                self.bytes == start.bytes,
                self.clipped == start.clipped,
                energy == energy_of(used.take(i as int)),
                energy <= i * 1_628_176,
                clipped == railed_in(used.take(i as int)),
                clipped <= i,
                self.peak == farthest(start.peak, used.take(i as int)),
            decreases n - i,
        {
            let b: u8 = buf[i];
            proof {
                assert(used.take(i + 1).drop_last() =~= used.take(i as int));
                assert(used.take(i + 1).last() == b);
                assert(0 <= deviation(b) * deviation(b) <= 1_628_176) by (nonlinear_arith)
                    requires
                        -1274 <= deviation(b) <= 1276,
                ;
                assert(magnitude(b) * magnitude(b) == deviation(b) * deviation(b))
                    by (nonlinear_arith)
                    requires
                        magnitude(b) == deviation(b) || magnitude(b) == -deviation(b),
                ;
            }
            let m: u64 = magnitude_of(b);
            assert(m * m <= 1_628_176);
            energy = energy + (m * m) as u128;
            if b == 0 || b == 255 {
                clipped = clipped + 1;
            }
            match self.peak {
                Some(p) => {
                    if m > magnitude_of(p) {
                        self.peak = Some(b);
                    }
                },
                None => {
                    self.peak = Some(b);
                },
            }
            i = i + 1;
        }
        assert(used.take(n as int) =~= used);
        self.bytes = self.bytes + buf.len() as u64;
        self.clipped = self.clipped + clipped;
        if pairs > 0 {
            self.block_power.push(BlockPower { energy, pairs: pairs as u64 });
        }
    }

    /// Power of the block that marks the noise floor: the tenth percentile. With traffic
    /// idle most of the time it falls on a quiet buffer.
    pub fn floor_block(&self) -> (r: Option<BlockPower>)
        requires
            self.wf(),
        ensures
            r is None <==> self.block_power@.len() == 0,
            r matches Some(b) ==> ranks_at(
                self.block_power@,
                b,
                floor_rank(self.block_power@.len() as int),
            ),
    {
        let n: usize = self.block_power.len();
        if n == 0 {
            return None;
        }
        let order = ordered(&self.block_power);
        proof {
            order@.to_multiset_ensures();
            self.block_power@.to_multiset_ensures();
        }
        let tenths: usize = (n - 1) / 10;
        let k: usize = if (n - 1) % 10 >= 5 {
            tenths + 1
        } else {
            tenths
        };
        assert(k == floor_rank(n as int));
        assert(in_order(order@));
        Some(order[k])
    }
}

fn magnitude_of(b: u8) -> (r: u64)
    ensures
        r == magnitude(b),
        r <= 1276,
{
    let v: u64 = 10 * b as u64;
    if v >= FULL_SCALE {
        v - FULL_SCALE
    } else {
        FULL_SCALE - v
    }
}

/// Compare two mean powers exactly.
fn is_quieter(a: &BlockPower, b: &BlockPower) -> (r: bool)
    requires
        a.pairs > 0,
        b.pairs > 0,
    ensures
        r == quieter(*a, *b),
{
    let ap: u128 = a.pairs as u128;
    let bp: u128 = b.pairs as u128;
    let qa: u128 = a.energy / ap;
    let ra: u128 = a.energy % ap;
    let qb: u128 = b.energy / bp;
    let rb: u128 = b.energy % bp;
    proof {
        vstd::arithmetic::div_mod::lemma_fundamental_div_mod(a.energy as int, ap as int);
        vstd::arithmetic::div_mod::lemma_fundamental_div_mod(b.energy as int, bp as int);
        let ea = a.energy as int;
        let eb = b.energy as int;
        assert(ea * bp == qa * (ap * bp) + ra * bp) by (nonlinear_arith)
            requires
                ea == ap * qa + ra,
        ;
        assert(eb * ap == qb * (ap * bp) + rb * ap) by (nonlinear_arith)
            requires
                eb == bp * qb + rb,
        ;
        assert(ra * bp < ap * bp && 0 <= ra * bp) by (nonlinear_arith)
            requires
                0 <= ra < ap,
                bp > 0,
        ;
        assert(rb * ap < ap * bp && 0 <= rb * ap) by (nonlinear_arith)
            requires
                0 <= rb < bp,
                ap > 0,
        ;
        assert(ap * bp <= 0xFFFF_FFFF_FFFF_FFFF * 0xFFFF_FFFF_FFFF_FFFF) by (nonlinear_arith)
            requires
                0 < ap <= 0xFFFF_FFFF_FFFF_FFFF,
                0 < bp <= 0xFFFF_FFFF_FFFF_FFFF,
        ;
        if qa < qb {
            assert(qa * (ap * bp) + ap * bp <= qb * (ap * bp)) by (nonlinear_arith)
                requires
                    qa + 1 <= qb,
                    0 <= ap * bp,
            ;
        } else if qb < qa {
            assert(qb * (ap * bp) + ap * bp <= qa * (ap * bp)) by (nonlinear_arith)
                requires
                    qb + 1 <= qa,
                    0 <= ap * bp,
            ;
        }
    }
    if qa != qb {
        qa < qb
    } else {
        ra * bp <= rb * ap
    }
}

proof fn lemma_quieter_trans(a: BlockPower, b: BlockPower, c: BlockPower)
    requires
        a.pairs > 0,
        b.pairs > 0,
        c.pairs > 0,
        quieter(a, b),
        quieter(b, c),
    ensures
        quieter(a, c),
{
    let (ae, be, ce) = (a.energy as int, b.energy as int, c.energy as int);
    let (ap, bp, cp) = (a.pairs as int, b.pairs as int, c.pairs as int);
    assert((ae * bp) * cp <= (be * ap) * cp) by (nonlinear_arith)
        requires
            ae * bp <= be * ap,
            cp > 0,
    ;
    assert((be * cp) * ap <= (ce * bp) * ap) by (nonlinear_arith)
        requires
            be * cp <= ce * bp,
            ap > 0,
    ;
    assert((be * ap) * cp == (be * cp) * ap) by (nonlinear_arith);
    assert((ae * bp) * cp == (ae * cp) * bp) by (nonlinear_arith);
    assert((ce * bp) * ap == (ce * ap) * bp) by (nonlinear_arith);
    assert(ae * cp <= ce * ap) by (nonlinear_arith)
        requires
            (ae * cp) * bp <= (ce * ap) * bp,
            bp > 0,
    ;
}

/// The blocks in the order of their mean power.
fn ordered(blocks: &Vec<BlockPower>) -> (r: Vec<BlockPower>)
    requires
        all_filled(blocks@),
    ensures
        in_order(r@),
        r@.to_multiset() == blocks@.to_multiset(),
{
    let mut r: Vec<BlockPower> = Vec::new();
    let mut i: usize = 0;
    assert(blocks@.take(0) =~= Seq::<BlockPower>::empty());
    while i < blocks.len()
        invariant
            i <= blocks@.len(),
            all_filled(blocks@),
            all_filled(r@),
            in_order(r@),
            r@.len() == i,
            r@.to_multiset() == blocks@.take(i as int).to_multiset(),
        decreases blocks@.len() - i,
    {
        let x: BlockPower = blocks[i];
        let mut k: usize = r.len();
        let ghost before = r@;
        while k > 0 && !is_quieter(&r[k - 1], &x)
            invariant
                k <= r@.len(),
                r@ == before,
                all_filled(before),
                in_order(before),
                x.pairs > 0,
                forall|j: int| k <= j < before.len() ==> quieter(x, #[trigger] before[j]),
            decreases k,
        {
            proof {
                lemma_quieter_total(before[k - 1], x);
            }
            k = k - 1;
        }
        r.insert(k, x);
        proof {
            lemma_insert_in_order(before, k as int, x);
            assert(blocks@.take(i + 1) =~= blocks@.take(i as int).push(x));
            before.to_multiset_ensures();
            lemma_insert_multiset(before, k as int, x);
            blocks@.take(i as int).to_multiset_ensures();
        }
        i = i + 1;
    }
    assert(blocks@.take(i as int) =~= blocks@);
    r
}

proof fn lemma_quieter_total(a: BlockPower, b: BlockPower)
    ensures
        quieter(a, b) || quieter(b, a),
{
}

proof fn lemma_insert_in_order(s: Seq<BlockPower>, k: int, x: BlockPower)
    requires
        all_filled(s),
        in_order(s),
        x.pairs > 0,
        0 <= k <= s.len(),
        k > 0 ==> quieter(s[k - 1], x),
        forall|j: int| k <= j < s.len() ==> quieter(x, #[trigger] s[j]),
    ensures
        all_filled(s.insert(k, x)),
        in_order(s.insert(k, x)),
{
    let t = s.insert(k, x);
    assert forall|i: int, j: int| 0 <= i <= j < t.len() implies quieter(
        #[trigger] t[i],
        #[trigger] t[j],
    ) by {
        if i < k && j == k {
            assert(quieter(s[i], s[k - 1]));
            lemma_quieter_trans(s[i], s[k - 1], x);
        }
    }
}

proof fn lemma_insert_multiset(s: Seq<BlockPower>, k: int, x: BlockPower)
    requires
        0 <= k <= s.len(),
    ensures
        s.insert(k, x).to_multiset() == s.to_multiset().insert(x),
{
    vstd::seq_lib::to_multiset_insert(s, k, x);
}

/// The energy of a stretch of samples is that of its parts together, and a single sample `b`
/// contributes the square of its distance from 127.4, in tenths of a step.
pub proof fn law_energy_adds_up(a: Seq<u8>, c: Seq<u8>, b: u8)
    ensures
        energy_of(Seq::<u8>::empty()) == 0,
        energy_of(seq![b]) == (10 * b - 1274) * (10 * b - 1274),
        energy_of(a + c) == energy_of(a) + energy_of(c),
        energy_of(a) >= 0,
    decreases a.len() + c.len(),
{
    reveal_with_fuel(energy_of, 2);
    assert(seq![b].drop_last() =~= Seq::<u8>::empty());
    if c.len() > 0 {
        law_energy_adds_up(a, c.drop_last(), b);
        assert((a + c).drop_last() =~= a + c.drop_last());
    } else {
        assert(a + c =~= a);
        if a.len() > 0 {
            law_energy_adds_up(a.drop_last(), c, b);
            let d = deviation(a.last());
            assert(d * d >= 0) by (nonlinear_arith);
        }
    }
}

/// The clipped samples are the zeros and the 255s, each counted once.
pub proof fn law_clipped_are_counted(bytes: Seq<u8>)
    ensures
        railed_in(bytes) == bytes.filter(|b: u8| b == 0 || b == 255).len(),
    decreases bytes.len(),
{
    reveal(Seq::filter);
    if bytes.len() > 0 {
        law_clipped_are_counted(bytes.drop_last());
    }
}

/// `p` lies as far from 127.4 as `b`, or farther, on either side.
pub open spec fn as_far(p: u8, b: u8) -> bool {
    let reach = vstd::math::abs(10 * p - 1274);
    -reach <= 10 * b - 1274 <= reach
}

/// The peak is one of the samples seen, and no sample lies farther from 127.4 on either side.
pub proof fn law_peak_is_farthest(so_far: Option<u8>, bytes: Seq<u8>)
    ensures
        ({
            let peak = farthest(so_far, bytes);
            &&& peak is None <==> so_far is None && bytes.len() == 0
            &&& peak is Some ==> peak == so_far || bytes.contains(peak->0)
            &&& so_far is Some ==> as_far(peak->0, so_far->0)
            &&& forall|i: int| 0 <= i < bytes.len() ==> as_far(peak->0, #[trigger] bytes[i])
        }),
    decreases bytes.len(),
{
    if bytes.len() > 0 {
        let rest = bytes.drop_last();
        let peak = farthest(so_far, bytes);
        let before = farthest(so_far, rest);
        law_peak_is_farthest(so_far, rest);
        assert(bytes[bytes.len() - 1] == bytes.last());
        if before is Some && rest.contains(before->0) {
            let i = choose|i: int| 0 <= i < rest.len() && rest[i] == before->0;
            assert(bytes[i] == before->0);
        }
        assert forall|i: int| 0 <= i < bytes.len() implies as_far(
            peak->0,
            #[trigger] bytes[i],
        ) by {
            if i < rest.len() {
                assert(as_far(before->0, rest[i]));
            }
        }
    }
}

/// Only whole pairs are measured: at most the last byte is left out, and only where their
/// number is odd.
pub proof fn law_whole_pairs_measured(buf: Seq<u8>)
    ensures
        buf.len() % 2 == 0 ==> paired(buf) == buf,
        buf.len() % 2 == 1 ==> paired(buf) == buf.drop_last(),
{
    if buf.len() % 2 == 0 {
        assert(paired(buf) =~= buf);
    } else {
        assert(paired(buf) =~= buf.drop_last());
    }
}

/// The noise floor is the power of one of the blocks, such that a tenth of the others, to
/// the nearest block, is quieter: no more than that many are strictly quieter, and more are
/// no louder.
pub proof fn law_floor_is_tenth_percentile(blocks: Seq<BlockPower>, r: BlockPower, k: int)
    requires
        ranks_at(blocks, r, k),
        k == floor_rank(blocks.len() as int),
    ensures
        blocks.contains(r),
        10 * k - 5 <= blocks.len() - 1 < 10 * k + 5,
        blocks.filter(|b: BlockPower| b.energy * r.pairs < r.energy * b.pairs).len() <= k,
        blocks.filter(|b: BlockPower| b.energy * r.pairs <= r.energy * b.pairs).len() > k,
{
    let order = choose|order: Seq<BlockPower>|
        #![trigger in_order(order)]
        in_order(order) && order.to_multiset() == blocks.to_multiset() && 0 <= k < order.len()
            && order[k] == r;
    let below = |b: BlockPower| b.energy * r.pairs < r.energy * b.pairs;
    let up_to = |b: BlockPower| b.energy * r.pairs <= r.energy * b.pairs;
    order.to_multiset_ensures();
    blocks.to_multiset_ensures();
    assert(order.contains(r));
    assert(blocks.to_multiset().count(r) > 0);
    lemma_filter_len(order, below);
    lemma_filter_len(blocks, below);
    lemma_filter_len(order, up_to);
    lemma_filter_len(blocks, up_to);
    let (head, tail) = (order.take(k), order.skip(k));
    assert(order =~= head + tail);
    Seq::filter_distributes_over_add(head, tail, below);
    assert forall|i: int| 0 <= i < tail.len() implies !below(#[trigger] tail[i]) by {
        assert(quieter(order[k], order[k + i]));
    }
    lemma_filter_none(tail, below);
    head.lemma_filter_len(below);
    let (low, high) = (order.take(k + 1), order.skip(k + 1));
    assert(order =~= low + high);
    Seq::filter_distributes_over_add(low, high, up_to);
    assert forall|i: int| 0 <= i < low.len() implies up_to(#[trigger] low[i]) by {
        assert(quieter(order[i], order[k]));
    }
    lemma_filter_all(low, up_to);
}

proof fn lemma_filter_len(s: Seq<BlockPower>, p: spec_fn(BlockPower) -> bool)
    ensures
        s.filter(p).len() == s.to_multiset().filter(p).len(),
    decreases s.len(),
{
    reveal(Seq::filter);
    s.to_multiset_ensures();
    if s.len() > 0 {
        let t = s.drop_last();
        let x = s.last();
        lemma_filter_len(t, p);
        t.to_multiset_ensures();
        assert(s =~= t.push(x));
        let m = t.to_multiset();
        if p(x) {
            assert(m.insert(x).filter(p) =~= m.filter(p).insert(x));
        } else {
            assert(m.insert(x).filter(p) =~= m.filter(p));
        }
    } else {
        assert(s.to_multiset().filter(p) =~= vstd::multiset::Multiset::empty());
    }
}

proof fn lemma_filter_none(s: Seq<BlockPower>, p: spec_fn(BlockPower) -> bool)
    requires
        forall|i: int| 0 <= i < s.len() ==> !p(#[trigger] s[i]),
    ensures
        s.filter(p).len() == 0,
    decreases s.len(),
{
    reveal(Seq::filter);
    if s.len() > 0 {
        lemma_filter_none(s.drop_last(), p);
    }
}

proof fn lemma_filter_all(s: Seq<BlockPower>, p: spec_fn(BlockPower) -> bool)
    requires
        forall|i: int| 0 <= i < s.len() ==> p(#[trigger] s[i]),
    ensures
        s.filter(p).len() == s.len(),
    decreases s.len(),
{
    reveal(Seq::filter);
    if s.len() > 0 {
        lemma_filter_all(s.drop_last(), p);
    }
}

/// A buffer adds all its bytes to those seen, its zeros and 255s to those clipped, and its power
/// to the record if it has a pair: the mean over its pairs, whatever was measured before.
/// A last byte without a partner is seen and no more.
pub proof fn law_buffer_accounted(before: LevelStats, after: LevelStats, buf: Seq<u8>)
    requires
        accounts(before, after, buf),
        0 <= energy_of(paired(buf)) <= u128::MAX,
        buf.len() <= u64::MAX,
    ensures
        ({
            let used = if buf.len() % 2 == 0 {
                buf
            } else {
                buf.drop_last()
            };
            let n = before.block_power@.len() as int;
            &&& after.bytes - before.bytes == buf.len()
            &&& after.clipped - before.clipped == used.filter(|b: u8| b == 0 || b == 255).len()
            &&& after.block_power@.take(n) == before.block_power@
            &&& after.block_power@.len() == n + if buf.len() >= 2 {
                1int
            } else {
                0
            }
            &&& buf.len() >= 2 ==> 2 * after.block_power@[n].pairs == used.len()
                && after.block_power@[n].energy == energy_of(used)
            &&& forall|i: int|
                0 <= i < used.len() ==> as_far(after.peak->0, #[trigger] used[i])
            &&& before.peak is Some ==> as_far(after.peak->0, before.peak->0)
            &&& after.peak is Some ==> after.peak == before.peak || used.contains(after.peak->0)
        }),
{
    law_whole_pairs_measured(buf);
    law_clipped_are_counted(paired(buf));
    law_peak_is_farthest(before.peak, paired(buf));
    let n = before.block_power@.len() as int;
    assert(after.block_power@.take(n) =~= before.block_power@);
}

} // verus!
