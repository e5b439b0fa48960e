//! Block sizes, bin arithmetic and overlap of the fast-convolution channelizer.
//!
//! One wide forward transform per block is shared by all channels. Each channel takes
//! the slice of bins round its own frequency, moved to DC, and a small inverse transform
//! of that slice yields its decimated samples.

use vstd::prelude::*;

verus! {

/// Audio rate that every channel is decimated to.
pub const AUDIO_RATE: u32 = 24_000;

/// Sizes of the transforms.
#[derive(Debug, Clone, Copy, PartialEq, Eq, Structural)]
pub struct Sizing {
    /// New input samples per block: 20 ms of them.
    pub l: usize,
    /// Samples carried over from the block before.
    pub m1: usize,
    /// Size of the forward transform.
    pub n: usize,
    /// Decimation.
    pub d: usize,
    /// Size of the inverse transforms.
    pub ns: usize,
    /// Valid samples per block and channel.
    pub olen: usize,
}

impl Sizing {
    /// The sizes are those for an input of `fs` samples per second.
    pub open spec fn sized(self, fs: int) -> bool {
        &&& self.l == (fs + 25) / 50
        &&& self.m1 == self.l as int / 4
        &&& self.n == self.l + self.m1
        &&& self.d == (fs + 12_000) / 24_000
        &&& self.ns == self.n as int / self.d as int
        &&& self.olen == self.l as int / self.d as int
    }

    /// Sizes for an input of `fs` samples per second.
    pub fn new(fs: u32) -> (r: Self)
        requires
            fs >= AUDIO_RATE / 2,
        ensures
            r.l == (fs + 25) / 50,
            r.m1 == r.l as int / 4,
            r.n == r.l + r.m1,
            r.d == (fs + 12_000) / 24_000,
            r.d > 0,
            r.ns == r.n as int / r.d as int,
            r.olen == r.l as int / r.d as int,
            r.sized(fs as int),
    {
        let rate: u64 = fs as u64;
        let l: usize = ((rate + 25) / 50) as usize;
        let m1: usize = l / 4;
        let n: usize = l + m1;
        let d: usize = ((rate + 12_000) / 24_000) as usize;
        Sizing { l, m1, n, d, ns: n / d, olen: l / d }
    }
}

/// At a rate that the audio rate divides, the sizes fit each other exactly: the same
/// decimation takes both transforms and both block lengths into each other.
pub proof fn law_sizes_fit(s: Sizing, k: int)
    requires
        k > 0,
        s.l == (24_000 * k + 25) / 50,
        s.m1 == s.l as int / 4,
        s.n == s.l + s.m1,
        s.d == (24_000 * k + 12_000) / 24_000,
        s.ns == s.n as int / s.d as int,
        s.olen == s.l as int / s.d as int,
    ensures
        s.d == k,
        s.l == 480 * k,
        s.m1 == 120 * k,
        s.n == 600 * k,
        s.ns == 600,
        s.olen == 480,
{
    assert(600 * k / k == 600) by (nonlinear_arith)
        requires
            k > 0,
    ;
    assert(480 * k / k == 480) by (nonlinear_arith)
        requires
            k > 0,
    ;
}

/// At every rate a block is 20 ms long to the nearest sample, a quarter of it is carried over,
/// and the decimation is the one that comes nearest to the audio rate. Transform and block
/// are decimated to as many samples as fit.
pub proof fn law_sizes_at_any_rate(s: Sizing, fs: int)
    requires
        fs >= 12_000,
        s.sized(fs),
    ensures
        -25 < 50 * s.l - fs <= 25,
        4 * s.m1 <= s.l < 4 * s.m1 + 4,
        s.n == s.l + s.m1,
        s.d > 0,
        -12_000 < 24_000 * s.d - fs <= 12_000,
        s.d * s.ns <= s.n < s.d * s.ns + s.d,
        s.d * s.olen <= s.l < s.d * s.olen + s.d,
{
    vstd::arithmetic::div_mod::lemma_fundamental_div_mod(s.n as int, s.d as int);
    vstd::arithmetic::div_mod::lemma_fundamental_div_mod(s.l as int, s.d as int);
}

/// `a / b` to the nearest integer, ties to even.
pub open spec fn round_even(a: int, b: int) -> int {
    let q = a / b;
    let r = a % b;
    if 2 * r > b || (2 * r == b && q % 2 == 1) {
        q + 1
    } else {
        q
    }
}

/// The least power of two by which `a` must be multiplied for the quotient by `b` to have
/// 53 significant bits.
pub open spec fn double_scale(a: int, b: int) -> int
    decreases
            if 0 < a < 0x10_0000_0000_0000 * b {
                0x10_0000_0000_0000 * b - a
            } else {
                0
            },
{
    if 0 < a < 0x10_0000_0000_0000 * b {
        2 * double_scale(2 * a, b)
    } else {
        1
    }
}

/// `a / b` in double precision, for quotients that have a fractional part: the first
/// number over the second.
pub open spec fn double_quotient(a: int, b: int) -> (int, int) {
    let s = double_scale(a, b);
    (round_even(a * s, b), s)
}

/// Bins that `offset` hertz are, to the nearest bin, halves up. Both the width of a bin and
/// the offset in bins are double-precision quotients, so an offset within one rounding
/// error of the middle between two bins may fall to either side.
pub open spec fn bins_up(offset: int, fs: int, n: int) -> int {
    let width = double_quotient(fs, n);
    let bins = double_quotient(offset * width.1, width.0);
    (2 * bins.0 + bins.1) / (2 * bins.1)
}

/// Bins that a channel `offset` hertz from the centre is away from DC.
pub open spec fn nearest_bin(offset: int, fs: int, n: int) -> int {
    if offset >= 0 {
        bins_up(offset, fs, n)
    } else {
        -bins_up(-offset, fs, n)
    }
}

/// Divide in double precision.
fn double_div(a: u128, b: u128) -> (r: (u128, u128))
    requires
        0 < b <= 0x40_0000_0000_0000,
        a < 0x10_0000_0000_0000 * b,
    ensures
        (r.0 as int, r.1 as int) == double_quotient(a as int, b as int),
        r.1 > 0,
        r.0 <= 0x20_0000_0000_0000,
        a > 0 ==> r.0 >= 0x10_0000_0000_0000,
        a * r.1 < 0x20_0000_0000_0000 * b,
{
    let full: u128 = 0x10_0000_0000_0000 * b;
    let mut num: u128 = a;
    let mut s: u128 = 1;
    while 0 < num && num < full
        invariant
            0 < b <= 0x40_0000_0000_0000,
            full == 0x10_0000_0000_0000 * b,
            a < full,
            num < 2 * full,
            num == a * s,
            s > 0,
            a == 0 ==> s == 1,
            double_scale(a as int, b as int) == s * double_scale(num as int, b as int),
        decreases 2 * full - num,
    {
        proof {
            assert(s <= num) by (nonlinear_arith)
                requires
                    num == a * s,
                    num > 0,
                    s > 0,
            ;
            assert(2 * num == a * (2 * s)) by (nonlinear_arith)
                requires
                    num == a * s,
            ;
            let rest = double_scale(2 * num, b as int);
            assert(s * (2 * rest) == (2 * s) * rest) by (nonlinear_arith);
        }
        num = 2 * num;
        s = 2 * s;
    }
    proof {
        assert(a > 0 ==> num > 0) by (nonlinear_arith)
            requires
                num == a * s,
                s > 0,
        ;
        assert(num as int / b as int <= 0x20_0000_0000_0000 - 1) by (nonlinear_arith)
            requires
                num < 0x20_0000_0000_0000 * b,
                b > 0,
        ;
        assert(a > 0 ==> num as int / b as int >= 0x10_0000_0000_0000) by (nonlinear_arith)
            requires
                a > 0 ==> num >= 0x10_0000_0000_0000 * b,
                b > 0,
        ;
        assert(s * 1 == s);
    }
    let q: u128 = num / b;
    let rem: u128 = num % b;
    if 2 * rem > b || (2 * rem == b && q % 2 == 1) {
        (q + 1, s)
    } else {
        (q, s)
    }
}

/// Bins that a channel `offset_hz` from the centre is away from DC, to the nearest bin.
pub fn bin_shift(offset_hz: i64, fs: u32, n: usize) -> (r: i64)
    requires
        0 < n <= fs,
        -0x1_0000_0000 < offset_hz < 0x1_0000_0000,
    ensures
        r == nearest_bin(offset_hz as int, fs as int, n as int),
        -0x20_0000_0000_0001 <= r <= 0x20_0000_0000_0001,
{
    let m: u64 = if offset_hz >= 0 {
        offset_hz as u64
    } else {
        (-offset_hz) as u64
    };
    let (w, s) = double_div(fs as u128, n as u128);
    proof {
        assert(s < 0x20_0000_0000_0000) by (nonlinear_arith)
            requires
                fs * s < 0x20_0000_0000_0000 * n,
                0 < n <= fs,
        ;
        assert(m * s <= 0x1_0000_0000 * 0x20_0000_0000_0000) by (nonlinear_arith)
            requires
                m <= 0x1_0000_0000,
                s < 0x20_0000_0000_0000,
        ;
    }
    let (q, t) = double_div(m as u128 * s, w);
    proof {
        assert(t < 0x20_0000_0000_0000 * w) by (nonlinear_arith)
            requires
                m * s > 0 ==> (m * s) * t < 0x20_0000_0000_0000 * w,
                m * s == 0 ==> t == 1,
                w > 0,
                m >= 0,
                s >= 0,
        ;
    }
    let bins: u128 = (2 * q + t) / (2 * t);
    proof {
        assert(bins <= q + 1) by (nonlinear_arith)
            requires
                bins == (2 * q + t) / (2 * t),
                t >= 1,
        ;
    }
    if offset_hz >= 0 {
        bins as i64
    } else {
        -(bins as i64)
    }
}

proof fn lemma_scale(a: int, b: int)
    requires
        0 < a,
        0 < b,
    ensures
        double_scale(a, b) > 0,
        a * double_scale(a, b) >= 0x10_0000_0000_0000 * b,
        a < 0x10_0000_0000_0000 * b ==> double_scale(a, b) % 2 == 0,
    decreases
            if a < 0x10_0000_0000_0000 * b {
                0x10_0000_0000_0000 * b - a
            } else {
                0
            },
{
    if a < 0x10_0000_0000_0000 * b {
        lemma_scale(2 * a, b);
        let rest = double_scale(2 * a, b);
        assert((2 * a) * rest == a * (2 * rest)) by (nonlinear_arith);
    } else {
        assert(a * 1 == a);
    }
}

/// At a rate that the audio rate divides, a bin is 40 Hz wide, and a channel is tuned to
/// the nearest bin, halves away from the centre.
pub proof fn law_bins_of_forty_hertz(k: int, offset: int)
    requires
        k > 0,
        0 <= offset < 0x1_0000_0000,
    ensures
        nearest_bin(offset, 24_000 * k, 600 * k) == (offset + 20) / 40,
        nearest_bin(-offset, 24_000 * k, 600 * k) == -((offset + 20) / 40),
{
    let s = double_scale(24_000 * k, 600 * k);
    lemma_scale(24_000 * k, 600 * k);
    let w = double_quotient(24_000 * k, 600 * k).0;
    assert((24_000 * k) * s == (40 * s) * (600 * k)) by (nonlinear_arith);
    vstd::arithmetic::div_mod::lemma_fundamental_div_mod_converse(
        (24_000 * k) * s,
        600 * k,
        40 * s,
        0,
    );
    assert(w == 40 * s);
    if offset > 0 {
        let a = offset * s;
        assert(0 < a < 0x1_0000_0000 * s) by (nonlinear_arith)
            requires
                0 < offset < 0x1_0000_0000,
                s > 0,
                a == offset * s,
        ;
        let t = double_scale(a, w);
        lemma_scale(a, w);
        assert(offset * t >= 0x10_0000_0000_0000 * 40) by (nonlinear_arith)
            requires
                (offset * s) * t >= 0x10_0000_0000_0000 * (40 * s),
                s > 0,
        ;
        assert(t > 40) by (nonlinear_arith)
            requires
                offset * t >= 0x10_0000_0000_0000 * 40,
                0 < offset < 0x1_0000_0000,
        ;
        let m = offset / 40;
        let c = offset % 40;
        let q = round_even(a * t, w);
        // Twice the rounded quotient lies within one of twice the exact one.
        vstd::arithmetic::div_mod::lemma_fundamental_div_mod(a * t, w);
        let d = (a * t) / w;
        let e = (a * t) % w;
        assert(2 * q * w - 2 * (a * t) <= w && 2 * (a * t) - 2 * q * w <= w) by (nonlinear_arith)
            requires
                w > 0,
                a * t == w * d + e,
                0 <= e < w,
                (q == d && 2 * e <= w) || (q == d + 1 && 2 * e >= w),
        ;
        assert(a * t == s * (offset * t)) by (nonlinear_arith)
            requires
                a == offset * s,
        ;
        assert(80 * q - 2 * (offset * t) <= 40 && 2 * (offset * t) - 80 * q <= 40)
            by (nonlinear_arith)
            requires
                s > 0,
                w == 40 * s,
                a * t == s * (offset * t),
                2 * q * w - 2 * (a * t) <= w,
                2 * (a * t) - 2 * q * w <= w,
        ;
        assert(offset * t == 40 * (m * t) + c * t) by (nonlinear_arith)
            requires
                offset == 40 * m + c,
        ;
        let up = if c >= 20 {
            m + 1
        } else {
            m
        };
        let h = t / 2;
        assert(up * t == m * t + if c >= 20 {
            t
        } else {
            0
        }) by (nonlinear_arith)
            requires
                up == if c >= 20 {
                    m + 1
                } else {
                    m
                },
        ;
        let ct = c * t;
        if c >= 20 {
            assert(20 * t <= ct <= 39 * t) by (nonlinear_arith)
                requires
                    20 <= c <= 39,
                    t > 0,
                    ct == c * t,
            ;
        } else {
            assert(0 <= ct <= 19 * t) by (nonlinear_arith)
                requires
                    0 <= c <= 19,
                    t > 0,
                    ct == c * t,
            ;
        }
        assert(2 * (up * t) <= 2 * q + t < 2 * (up * t) + 2 * t);
        assert(2 * q + t == up * (2 * t) + (2 * q + t - 2 * (up * t))) by (nonlinear_arith);
        vstd::arithmetic::div_mod::lemma_fundamental_div_mod_converse(
            2 * q + t,
            2 * t,
            up,
            2 * q + t - 2 * (up * t),
        );
        assert(up == (offset + 20) / 40);
        assert(double_quotient(24_000 * k, 600 * k) == (w, s));
        assert(double_quotient(a, w) == (q, t));
        assert(bins_up(offset, 24_000 * k, 600 * k) == up);
    } else {
        let a = offset * s;
        assert(a == 0) by (nonlinear_arith)
            requires
                offset == 0,
                a == offset * s,
        ;
        assert(double_scale(0, w) == 1);
        assert(0int / w == 0 && 0int % w == 0) by (nonlinear_arith)
            requires
                w > 0,
        ;
        assert(double_quotient(24_000 * k, 600 * k) == (w, s));
        assert(double_quotient(a, w) == (0int, 1int));
        assert(bins_up(offset, 24_000 * k, 600 * k) == 0);
    }
}

/// Offset from the channel's centre, in bins, that bin `k` of its slice stands for.
pub open spec fn signed_bin(k: int, ns: int) -> int {
    if k < ns / 2 {
        k
    } else {
        k - ns
    }
}

/// Bin of the forward transform that bin `k` of a channel's slice is taken from.
pub open spec fn master_bin(shift: int, k: int, n: int, ns: int) -> int {
    (shift + signed_bin(k, ns)) % n
}

/// `a` modulo `n`, never negative.
fn wrap_bin(a: i128, n: usize) -> (r: usize)
    requires
        n > 0,
        a > i128::MIN,
    ensures
        r == a as int % n as int,
        r < n,
{
    let m: u128 = n as u128;
    if a >= 0 {
        (a as u128 % m) as usize
    } else {
        let b: u128 = (-a) as u128;
        let rem: u128 = b % m;
        let q: u128 = b / m;
        proof {
            vstd::arithmetic::div_mod::lemma_fundamental_div_mod(b as int, m as int);
            if rem == 0 {
                assert(a == (-q) * n + 0) by (nonlinear_arith)
                    requires
                        -a == n * q + 0,
                ;
                vstd::arithmetic::div_mod::lemma_fundamental_div_mod_converse(
                    a as int,
                    n as int,
                    -q,
                    0,
                );
            } else {
                assert(a == (-q - 1) * n + (n - rem)) by (nonlinear_arith)
                    requires
                        -a == n * q + rem,
                ;
                vstd::arithmetic::div_mod::lemma_fundamental_div_mod_converse(
                    a as int,
                    n as int,
                    -q - 1,
                    n - rem,
                );
            }
        }
        if rem == 0 {
            0
        } else {
            (m - rem) as usize
        }
    }
}

/// The slice of a spectrum that belongs to a channel, its centre moved to DC.
pub open spec fn slice_of<T>(spectrum: Seq<T>, shift: int, ns: int) -> Seq<T> {
    Seq::new(ns as nat, |k: int| spectrum[master_bin(shift, k, spectrum.len() as int, ns)])
}

/// Take the slice of a spectrum that belongs to a channel.
pub fn select_bins<T: Copy>(master: &[T], shift: i64, ns: usize) -> (r: Vec<T>)
    requires
        master@.len() > 0,
    ensures
        r@ == slice_of(master@, shift as int, ns as int),
{
    let n: usize = master.len();
    let mut r: Vec<T> = Vec::new();
    let mut k: usize = 0;
    while k < ns
        invariant
            k <= ns,
            n == master@.len(),
            n > 0,
            r@.len() == k,
            forall|j: int|
                0 <= j < k ==> #[trigger] r@[j] == master@[master_bin(
                    shift as int,
                    j,
                    n as int,
                    ns as int,
                )],
        decreases ns - k,
    {
        let kk: i128 = if k < ns / 2 {
            k as i128
        } else {
            k as i128 - ns as i128
        };
        let bin: usize = wrap_bin(shift as i128 + kk, n);
        r.push(master[bin]);
        k = k + 1;
    }
    assert(r@ =~= slice_of(master@, shift as int, ns as int));
    r
}

/// Number of whole blocks in a stream that starts with `m1` samples of overlap.
pub open spec fn block_count(len: int, l: int, m1: int) -> int {
    (len - m1) / l
}

/// The windows of a stream: each holds the overlap and one block.
pub open spec fn windows_of<T>(stream: Seq<T>, l: int, m1: int) -> Seq<Seq<T>> {
    Seq::new(
        block_count(stream.len() as int, l, m1) as nat,
        |i: int| stream.subrange(i * l, i * l + m1 + l),
    )
}

/// What is left of a stream for the next windows.
pub open spec fn rest_of<T>(stream: Seq<T>, l: int, m1: int) -> Seq<T> {
    stream.skip(block_count(stream.len() as int, l, m1) * l)
}

/// One tuned channel.
#[derive(Debug, Clone, Copy, PartialEq, Eq, Structural)]
pub struct Channel {
    /// Channel identifier.
    pub ssrc: u32,
    /// Bins from DC to the channel's centre.
    pub shift: i64,
}

/// What one block brings for one channel.
#[derive(Debug, Clone)]
pub struct ChannelBlock<T> {
    /// Identifier of the channel.
    pub ssrc: u32,
    /// Its bins, or the samples that they are transformed into.
    pub samples: Vec<T>,
}

/// A channel's block as a value of mathematics.
#[verifier::ext_equal]
pub struct BlockView<T> {
    pub ssrc: u32,
    pub samples: Seq<T>,
}

impl<T> View for ChannelBlock<T> {
    type V = BlockView<T>;

    open spec fn view(&self) -> BlockView<T> {
        BlockView { ssrc: self.ssrc, samples: self.samples@ }
    }
}

/// The slices of spectra: for each spectrum one per channel, in the order of the channels.
pub open spec fn slices_of<T>(spectra: Seq<Seq<T>>, channels: Seq<Channel>, ns: int) -> Seq<
    BlockView<T>,
> {
    Seq::new(
        spectra.len() * channels.len(),
        |i: int|
            {
                let ch = channels[i % channels.len() as int];
                BlockView {
                    ssrc: ch.ssrc,
                    samples: slice_of(spectra[i / channels.len() as int], ch.shift as int, ns),
                }
            },
    )
}

/// The blocks with only the last `olen` samples of each: those before are wrapped round.
pub open spec fn valid_of<T>(blocks: Seq<BlockView<T>>, olen: int) -> Seq<BlockView<T>> {
    blocks.map_values(
        |b: BlockView<T>|
            BlockView { ssrc: b.ssrc, samples: b.samples.skip(b.samples.len() - olen) },
    )
}

/// The channelizer round its transforms: cuts the sample stream into overlapping windows,
/// takes each channel's bins out of their spectra, and keeps the valid samples of what
/// the bins are transformed into.
pub struct Channelizer<T> {
    fs: u32,
    sizing: Sizing,
    channels: Vec<Channel>,
    /// Overlap and samples that do not fill a block yet.
    carry: Vec<T>,
}

/// A channelizer as a value of mathematics.
#[verifier::ext_equal]
pub struct ChannelizerView<T> {
    pub fs: u32,
    pub sizing: Sizing,
    pub channels: Seq<Channel>,
    pub carry: Seq<T>,
}

impl<T> View for Channelizer<T> {
    type V = ChannelizerView<T>;

    closed spec fn view(&self) -> ChannelizerView<T> {
        ChannelizerView {
            fs: self.fs,
            sizing: self.sizing,
            channels: self.channels@,
            carry: self.carry@,
        }
    }
}

impl<T: Copy> Channelizer<T> {
    /// What every operation keeps.
    pub closed spec fn wf(&self) -> bool {
        &&& self.fs >= AUDIO_RATE / 2
        &&& 0 < self.sizing.l
        &&& self.sizing.n == self.sizing.l + self.sizing.m1
        &&& self.sizing.n <= self.fs
        &&& self.sizing.olen <= self.sizing.ns
        &&& self.sizing.m1 <= self.carry@.len() < self.sizing.n
    }

    /// What holds of every sound channelizer: the sizes fit each other, and the samples
    /// carried over are the overlap and less than a block.
    pub proof fn lemma_wf(&self)
        requires
            self.wf(),
        ensures
            self@.fs >= AUDIO_RATE / 2,
            0 < self@.sizing.l,
            self@.sizing.n == self@.sizing.l + self@.sizing.m1,
            self@.sizing.n <= self@.fs,
            self@.sizing.olen <= self@.sizing.ns,
            self@.sizing.m1 <= self@.carry.len() < self@.sizing.n,
    {
    }

    /// A channelizer for `fs` complex samples per second, with no channels and a silent
    /// past.
    pub fn new(fs: u32, zero: T) -> (r: Self)
        requires
            fs >= AUDIO_RATE / 2,
        ensures
            r.wf(),
            r@.fs == fs,
            r@.sizing.l == (fs + 25) / 50,
            r@.sizing.m1 == r@.sizing.l as int / 4,
            r@.sizing.n == r@.sizing.l + r@.sizing.m1,
            r@.sizing.d == (fs + 12_000) / 24_000,
            r@.sizing.ns == r@.sizing.n as int / r@.sizing.d as int,
            r@.sizing.olen == r@.sizing.l as int / r@.sizing.d as int,
            r@.sizing.sized(fs as int),
            r@.channels == Seq::<Channel>::empty(),
            r@.carry == Seq::new(r@.sizing.m1 as nat, |i: int| zero),
    {
        let sizing = Sizing::new(fs);
        let mut carry: Vec<T> = Vec::new();
        while carry.len() < sizing.m1
            invariant
                carry@.len() <= sizing.m1,
                forall|i: int| 0 <= i < carry@.len() ==> carry@[i] == zero,
            decreases sizing.m1 - carry@.len(),
        {
            carry.push(zero);
        }
        assert(carry@ =~= Seq::new(sizing.m1 as nat, |i: int| zero));
        proof {
            vstd::arithmetic::div_mod::lemma_div_is_ordered(
                sizing.l as int,
                sizing.n as int,
                sizing.d as int,
            );
        }
        Channelizer { fs, sizing, channels: Vec::new(), carry }
    }

    /// Add a channel tuned `offset_hz` from the centre. `ssrc` tags its output.
    pub fn add_channel(&mut self, ssrc: u32, offset_hz: i64)
        requires
            old(self).wf(),
            -0x1_0000_0000 < offset_hz < 0x1_0000_0000,
        ensures
            final(self).wf(),
            final(self)@ == (ChannelizerView {
                channels: old(self)@.channels.push(
                    Channel {
                        ssrc,
                        shift: nearest_bin(
                            offset_hz as int,
                            old(self)@.fs as int,
                            old(self)@.sizing.n as int,
                        ) as i64,
                    },
                ),
                ..old(self)@
            }),
            final(self)@.channels.last().shift == nearest_bin(
                offset_hz as int,
                old(self)@.fs as int,
                old(self)@.sizing.n as int,
            ),
    {
        let shift: i64 = bin_shift(offset_hz, self.fs, self.sizing.n);
        self.channels.push(Channel { ssrc, shift });
    }

    /// The sizes in use.
    pub fn sizing(&self) -> (r: Sizing)
        ensures
            r == self@.sizing,
    {
        self.sizing
    }

    /// The channels, in the order in which they were added.
    pub fn channels(&self) -> (r: &[Channel])
        ensures
            r@ == self@.channels,
    {
        self.channels.as_slice()
    }

    /// Valid decimated samples per channel and block.
    pub fn olen(&self) -> (r: usize)
        ensures
            r == self@.sizing.olen,
    {
        self.sizing.olen
    }

    /// Feed input samples. Returns the window of each block that has become complete:
    /// the overlap from before, then the new samples.
    pub fn process(&mut self, input: &[T]) -> (r: Vec<Vec<T>>)
        requires
            old(self).wf(),
            old(self)@.carry.len() + input@.len() <= usize::MAX,
        ensures
            final(self).wf(),
            r@.map_values(|w: Vec<T>| w@) == windows_of(
                old(self)@.carry + input@,
                old(self)@.sizing.l as int,
                old(self)@.sizing.m1 as int,
            ),
            final(self)@ == (ChannelizerView {
                carry: rest_of(
                    old(self)@.carry + input@,
                    old(self)@.sizing.l as int,
                    old(self)@.sizing.m1 as int,
                ),
                ..old(self)@
            }),
    {
        let l: usize = self.sizing.l;
        let m1: usize = self.sizing.m1;
        let n: usize = self.sizing.n;
        let ghost start = self@;
        let ghost stream = self@.carry + input@;
        let mut all: Vec<T> = vstd::slice::slice_to_vec(self.carry.as_slice());
        let mut i: usize = 0;
        assert(all@ =~= stream.take(all@.len() as int));
        while i < input.len()
            invariant
                i <= input@.len(),
                stream == start.carry + input@,
                all@ == stream.take(start.carry.len() + i),
            decreases input@.len() - i,
        {
            all.push(input[i]);
            i = i + 1;
            assert(all@ =~= stream.take(start.carry.len() + i));
        }
        assert(all@ =~= stream);
        let total: usize = all.len();
        let mut out: Vec<Vec<T>> = Vec::new();
        let mut at: usize = 0;
        let ghost mut count: int = 0;
        assert(0 * l == 0);
        while total - at >= n
            invariant
                total == all@.len(),
                all@ == stream,
                l > 0,
                n == l + m1,
                0 <= count,
                at == count * l,
                at + m1 <= total,
                out@.len() == count,
                forall|j: int|
                    0 <= j < count ==> (#[trigger] out@[j])@ == stream.subrange(
                        j * l,
                        j * l + m1 + l,
                    ),
            decreases total - at,
        {
            let w = vstd::slice::slice_to_vec(
                vstd::slice::slice_subrange(all.as_slice(), at, at + n),
            );
            out.push(w);
            at = at + l;
            proof {
                assert((count + 1) * l == count * l + l) by (nonlinear_arith);
                count = count + 1;
            }
        }
        proof {
            assert(block_count(total as int, l as int, m1 as int) == count) by {
                vstd::arithmetic::div_mod::lemma_fundamental_div_mod_converse(
                    total - m1,
                    l as int,
                    count,
                    total - m1 - count * l,
                );
            }
        }
        let rest = vstd::slice::slice_to_vec(
            vstd::slice::slice_subrange(all.as_slice(), at, total),
        );
        assert(rest@ =~= rest_of(stream, l as int, m1 as int));
        self.carry = rest;
        assert(out@.map_values(|w: Vec<T>| w@) =~= windows_of(stream, l as int, m1 as int));
        out
    }

    /// Take every channel's bins out of the spectra of windows: for each spectrum one
    /// slice per channel, in the order in which the channels were added.
    pub fn slices(&self, spectra: &[Vec<T>]) -> (r: Vec<ChannelBlock<T>>)
        requires
            forall|i: int| 0 <= i < spectra@.len() ==> (#[trigger] spectra@[i])@.len() > 0,
        ensures
            r@.map_values(|b: ChannelBlock<T>| b@) == slices_of(
                spectra@.map_values(|w: Vec<T>| w@),
                self@.channels,
                self@.sizing.ns as int,
            ),
    {
        let ghost masters = spectra@.map_values(|w: Vec<T>| w@);
        let ghost ns = self.sizing.ns as int;
        let ghost view = |b: ChannelBlock<T>| b@;
        let ghost c = self.channels@.len() as int;
        let ghost all = slices_of(masters, self.channels@, ns);
        let mut out: Vec<ChannelBlock<T>> = Vec::new();
        let mut i: usize = 0;
        assert(0 * c == 0);
        while i < spectra.len()
            invariant
                i <= spectra@.len(),
                forall|i: int| 0 <= i < spectra@.len() ==> (#[trigger] spectra@[i])@.len() > 0,
                masters == spectra@.map_values(|w: Vec<T>| w@),
                ns == self.sizing.ns,
                c == self.channels@.len(),
                all == slices_of(masters, self.channels@, ns),
                out@.len() == i * c,
                forall|k: int| 0 <= k < out@.len() ==> (#[trigger] out@[k])@ == all[k],
            decreases spectra@.len() - i,
        {
            let mut j: usize = 0;
            assert((i + 1) * c == i * c + c) by (nonlinear_arith);
            assert((i + 1) * c <= masters.len() * c) by (nonlinear_arith)
                requires
                    i + 1 <= masters.len(),
                    c >= 0,
            ;
            while j < self.channels.len()
                invariant
                    i < spectra@.len(),
                    spectra@[i as int]@.len() > 0,
                    j <= c,
                    masters == spectra@.map_values(|w: Vec<T>| w@),
                    ns == self.sizing.ns,
                    c == self.channels@.len(),
                    all == slices_of(masters, self.channels@, ns),
                    0 <= i * c,
                    i * c + c <= masters.len() * c,
                    out@.len() == i * c + j,
                    forall|k: int| 0 <= k < out@.len() ==> (#[trigger] out@[k])@ == all[k],
                decreases c - j,
            {
                let ch: Channel = self.channels[j];
                let samples = select_bins(spectra[i].as_slice(), ch.shift, self.sizing.ns);
                proof {
                    vstd::arithmetic::div_mod::lemma_fundamental_div_mod_converse(
                        i * c + j,
                        c,
                        i as int,
                        j as int,
                    );
                }
                out.push(ChannelBlock { ssrc: ch.ssrc, samples });
                assert(out@[i * c + j]@ == all[i * c + j]);
                j = j + 1;
            }
            i = i + 1;
        }
        assert(out@.map_values(view) =~= all);
        out
    }

    /// Keep the valid samples of each transformed slice.
    pub fn finish(&self, blocks: &[ChannelBlock<T>]) -> (r: Vec<ChannelBlock<T>>)
        requires
            self.wf(),
            forall|i: int|
                0 <= i < blocks@.len() ==> (#[trigger] blocks@[i]).samples@.len()
                    == self@.sizing.ns,
        ensures
            r@.map_values(|b: ChannelBlock<T>| b@) == valid_of(
                blocks@.map_values(|b: ChannelBlock<T>| b@),
                self@.sizing.olen as int,
            ),
    {
        let ghost view = |b: ChannelBlock<T>| b@;
        let ghost all = valid_of(blocks@.map_values(view), self.sizing.olen as int);
        let mut out: Vec<ChannelBlock<T>> = Vec::new();
        let mut i: usize = 0;
        while i < blocks.len()
            invariant
                self.wf(),
                i <= blocks@.len(),
                forall|i: int|
                    0 <= i < blocks@.len() ==> (#[trigger] blocks@[i]).samples@.len()
                        == self.sizing.ns,
                view == (|b: ChannelBlock<T>| b@),
                all == valid_of(blocks@.map_values(view), self.sizing.olen as int),
                out@.len() == i,
                forall|k: int| 0 <= k < i ==> (#[trigger] out@[k])@ == all[k],
            decreases blocks@.len() - i,
        {
            let b = &blocks[i];
            let ghost whole = blocks@[i as int].samples@;
            let samples = vstd::slice::slice_to_vec(
                vstd::slice::slice_subrange(
                    b.samples.as_slice(),
                    self.sizing.ns - self.sizing.olen,
                    self.sizing.ns,
                ),
            );
            assert(samples@ =~= whole.skip(whole.len() - self.sizing.olen));
            out.push(ChannelBlock { ssrc: b.ssrc, samples });
            i = i + 1;
        }
        assert(out@.map_values(view) =~= all);
        out
    }
}

/// How the input is cut into pieces does not matter: feeding two pieces one after the
/// other gives the windows of both together, and leaves the same rest.
pub proof fn law_chunking<T>(stream: Seq<T>, more: Seq<T>, l: int, m1: int)
    requires
        l > 0,
        0 <= m1 <= stream.len(),
    ensures
        windows_of(stream + more, l, m1) == windows_of(stream, l, m1) + windows_of(
            rest_of(stream, l, m1) + more,
            l,
            m1,
        ),
        rest_of(stream + more, l, m1) == rest_of(rest_of(stream, l, m1) + more, l, m1),
{
    let whole = stream + more;
    let c = block_count(stream.len() as int, l, m1);
    vstd::arithmetic::div_mod::lemma_fundamental_div_mod(stream.len() - m1, l);
    assert(l * c == c * l) by (nonlinear_arith);
    assert(0 <= c) by (nonlinear_arith)
        requires
            l > 0,
            l * c + (stream.len() - m1) % l == stream.len() - m1,
            0 <= (stream.len() - m1) % l < l,
            stream.len() - m1 >= 0,
    ;
    assert(0 <= c * l) by (nonlinear_arith)
        requires
            0 <= c,
            l > 0,
    ;
    assert(c * l + m1 <= stream.len());
    let rest = rest_of(stream, l, m1);
    let then = rest + more;
    assert(then =~= whole.skip(c * l));
    let c2 = block_count(then.len() as int, l, m1);
    let total = block_count(whole.len() as int, l, m1);
    vstd::arithmetic::div_mod::lemma_fundamental_div_mod(then.len() - m1, l);
    assert(l * c2 == c2 * l) by (nonlinear_arith);
    assert(0 <= c2) by (nonlinear_arith)
        requires
            l > 0,
            l * c2 + (then.len() - m1) % l == then.len() - m1,
            0 <= (then.len() - m1) % l < l,
            then.len() - m1 >= 0,
    ;
    assert((c + c2) * l == c * l + c2 * l) by (nonlinear_arith);
    vstd::arithmetic::div_mod::lemma_fundamental_div_mod_converse(
        whole.len() - m1,
        l,
        c + c2,
        (then.len() - m1) % l,
    );
    assert(total == c + c2);
    assert(0 <= c2 * l) by (nonlinear_arith)
        requires
            0 <= c2,
            l > 0,
    ;
    assert(c2 * l + m1 <= then.len());
    let a = windows_of(whole, l, m1);
    let b = windows_of(stream, l, m1) + windows_of(then, l, m1);
    assert forall|i: int| 0 <= i < total implies a[i] == b[i] by {
        if i < c {
            assert(i * l + l <= c * l && 0 <= i * l) by (nonlinear_arith)
                requires
                    0 <= i < c,
                    l > 0,
            ;
            assert(whole.subrange(i * l, i * l + m1 + l) =~= stream.subrange(
                i * l,
                i * l + m1 + l,
            ));
        } else {
            let j = i - c;
            assert(j * l + l <= c2 * l && 0 <= j * l) by (nonlinear_arith)
                requires
                    0 <= j < c2,
                    l > 0,
            ;
            assert(i * l == c * l + j * l) by (nonlinear_arith)
                requires
                    i == c + j,
            ;
            assert(whole.subrange(i * l, i * l + m1 + l) =~= then.subrange(
                j * l,
                j * l + m1 + l,
            ));
        }
    }
    assert(a =~= b);
    assert(rest_of(whole, l, m1) =~= rest_of(then, l, m1));
}

/// Neighbouring windows overlap by exactly the carried samples.
pub proof fn law_windows_overlap<T>(stream: Seq<T>, l: int, m1: int, i: int)
    requires
        l > 0,
        0 <= m1 <= stream.len(),
        0 <= i,
        i + 1 < block_count(stream.len() as int, l, m1),
    ensures
        windows_of(stream, l, m1)[i].skip(l) == windows_of(stream, l, m1)[i + 1].take(m1),
{
    let c = block_count(stream.len() as int, l, m1);
    vstd::arithmetic::div_mod::lemma_fundamental_div_mod(stream.len() - m1, l);
    assert(l * c == c * l) by (nonlinear_arith);
    assert((i + 1) * l == i * l + l && 0 <= i * l && i * l + 2 * l <= c * l) by (nonlinear_arith)
        requires
            0 <= i,
            i + 1 < c,
            l > 0,
    ;
    assert(windows_of(stream, l, m1)[i].skip(l) =~= windows_of(stream, l, m1)[i + 1].take(m1));
}

/// The blocks that windows bring, whatever the transforms compute: `forward` takes a window
/// to its spectrum, and `inverse` a slice of it to samples.
pub open spec fn blocks_of<T>(
    v: ChannelizerView<T>,
    windows: Seq<Seq<T>>,
    forward: spec_fn(Seq<T>) -> Seq<T>,
    inverse: spec_fn(Seq<T>) -> Seq<T>,
) -> Seq<BlockView<T>> {
    valid_of(
        slices_of(windows.map_values(forward), v.channels, v.sizing.ns as int).map_values(
            |b: BlockView<T>| BlockView { ssrc: b.ssrc, samples: inverse(b.samples) },
        ),
        v.sizing.olen as int,
    )
}

/// The blocks of all calls joined, when the input is fed piece by piece.
pub open spec fn blocks_over<T>(
    v: ChannelizerView<T>,
    pieces: Seq<Seq<T>>,
    forward: spec_fn(Seq<T>) -> Seq<T>,
    inverse: spec_fn(Seq<T>) -> Seq<T>,
) -> Seq<BlockView<T>>
    decreases pieces.len(),
{
    if pieces.len() == 0 {
        Seq::empty()
    } else {
        let stream = v.carry + pieces.first();
        let l = v.sizing.l as int;
        let m1 = v.sizing.m1 as int;
        blocks_of(v, windows_of(stream, l, m1), forward, inverse) + blocks_over(
            ChannelizerView { carry: rest_of(stream, l, m1), ..v },
            pieces.drop_first(),
            forward,
            inverse,
        )
    }
}

/// Which channel and window a block belongs to.
proof fn lemma_block_at<T>(
    v: ChannelizerView<T>,
    windows: Seq<Seq<T>>,
    forward: spec_fn(Seq<T>) -> Seq<T>,
    inverse: spec_fn(Seq<T>) -> Seq<T>,
    i: int,
    j: int,
)
    requires
        0 <= i < windows.len(),
        0 <= j < v.channels.len(),
    ensures
        ({
            let at = i * v.channels.len() + j;
            let samples = inverse(
                slice_of(
                    forward(windows[i]),
                    v.channels[j].shift as int,
                    v.sizing.ns as int,
                ),
            );
            &&& 0 <= at < blocks_of(v, windows, forward, inverse).len()
            &&& blocks_of(v, windows, forward, inverse)[at] == (BlockView {
                ssrc: v.channels[j].ssrc,
                samples: samples.skip(samples.len() - v.sizing.olen),
            })
        }),
{
    let c = v.channels.len() as int;
    vstd::arithmetic::div_mod::lemma_fundamental_div_mod_converse(i * c + j, c, i, j);
    assert(0 <= i * c + j < windows.len() * c) by (nonlinear_arith)
        requires
            0 <= i < windows.len(),
            0 <= j < c,
    ;
}

/// The blocks of windows are joined as the windows are.
proof fn lemma_blocks_join<T>(
    v: ChannelizerView<T>,
    a: Seq<Seq<T>>,
    b: Seq<Seq<T>>,
    forward: spec_fn(Seq<T>) -> Seq<T>,
    inverse: spec_fn(Seq<T>) -> Seq<T>,
)
    ensures
        blocks_of(v, a + b, forward, inverse) == blocks_of(v, a, forward, inverse) + blocks_of(
            v,
            b,
            forward,
            inverse,
        ),
{
    let c = v.channels.len() as int;
    let whole = blocks_of(v, a + b, forward, inverse);
    let first = blocks_of(v, a, forward, inverse);
    let second = blocks_of(v, b, forward, inverse);
    assert((a.len() + b.len()) * c == a.len() * c + b.len() * c) by (nonlinear_arith);
    assert forall|k: int| 0 <= k < whole.len() implies whole[k] == (first + second)[k] by {
        assert(c > 0) by (nonlinear_arith)
            requires
                0 <= k < (a.len() + b.len()) * c,
                c >= 0,
        ;
        let i = k / c;
        let j = k % c;
        vstd::arithmetic::div_mod::lemma_fundamental_div_mod(k, c);
        assert(k == i * c + j) by (nonlinear_arith)
            requires
                k == c * i + j,
        ;
        assert(0 <= i < a.len() + b.len()) by (nonlinear_arith)
            requires
                k == i * c + j,
                0 <= k < (a.len() + b.len()) * c,
                0 <= j < c,
        ;
        lemma_block_at(v, a + b, forward, inverse, i, j);
        if i < a.len() {
            lemma_block_at(v, a, forward, inverse, i, j);
        } else {
            lemma_block_at(v, b, forward, inverse, i - a.len(), j);
            assert((i - a.len()) * c == i * c - a.len() * c) by (nonlinear_arith);
        }
    }
    assert(whole =~= first + second);
}

/// The blocks of all calls depend only on the samples fed, not on how they were cut into
/// pieces, whatever the transforms compute.
pub proof fn law_pieces_do_not_matter<T>(
    v: ChannelizerView<T>,
    pieces: Seq<Seq<T>>,
    forward: spec_fn(Seq<T>) -> Seq<T>,
    inverse: spec_fn(Seq<T>) -> Seq<T>,
)
    requires
        0 < v.sizing.l,
        v.sizing.m1 <= v.carry.len() < v.sizing.l + v.sizing.m1,
    ensures
        blocks_over(v, pieces, forward, inverse) == blocks_of(
            v,
            windows_of(v.carry + pieces.flatten(), v.sizing.l as int, v.sizing.m1 as int),
            forward,
            inverse,
        ),
    decreases pieces.len(),
{
    let l = v.sizing.l as int;
    let m1 = v.sizing.m1 as int;
    let windows = windows_of(v.carry + pieces.flatten(), l, m1);
    if pieces.len() == 0 {
        assert(v.carry + pieces.flatten() =~= v.carry);
        vstd::arithmetic::div_mod::lemma_basic_div(v.carry.len() - m1, l);
        assert(windows.len() == 0);
        assert(0 * v.channels.len() == 0);
        assert(blocks_of(v, windows, forward, inverse) =~= Seq::<BlockView<T>>::empty());
    } else {
        let stream = v.carry + pieces.first();
        let rest = rest_of(stream, l, m1);
        let more = pieces.drop_first().flatten();
        let next = ChannelizerView { carry: rest, ..v };
        assert(v.carry + pieces.flatten() =~= stream + more);
        law_chunking(stream, more, l, m1);
        lemma_rest_len(stream, l, m1);
        law_pieces_do_not_matter(next, pieces.drop_first(), forward, inverse);
        let then = windows_of(rest + more, l, m1);
        lemma_blocks_join(v, windows_of(stream, l, m1), then, forward, inverse);
        assert(blocks_of(next, then, forward, inverse) == blocks_of(v, then, forward, inverse));
    }
}

proof fn lemma_rest_len<T>(stream: Seq<T>, l: int, m1: int)
    requires
        l > 0,
        0 <= m1 <= stream.len(),
    ensures
        m1 <= rest_of(stream, l, m1).len() < l + m1,
{
    let c = block_count(stream.len() as int, l, m1);
    vstd::arithmetic::div_mod::lemma_fundamental_div_mod(stream.len() - m1, l);
    assert(l * c == c * l) by (nonlinear_arith);
    vstd::arithmetic::div_mod::lemma_div_pos_is_pos(stream.len() - m1, l);
    assert(0 <= c * l) by (nonlinear_arith)
        requires
            0 <= c,
            l > 0,
    ;
}

/// At a rate that the audio rate divides, a new channelizer gives for every complete 20 ms
/// of input one block per channel, in the order in which the channels were added, each
/// tagged with its channel and holding 480 samples, however the input is cut into pieces
/// and whatever transforms of the right length compute.
pub proof fn law_one_block_per_channel<T>(
    v: ChannelizerView<T>,
    k: int,
    pieces: Seq<Seq<T>>,
    forward: spec_fn(Seq<T>) -> Seq<T>,
    inverse: spec_fn(Seq<T>) -> Seq<T>,
)
    requires
        k > 0,
        v.fs == 24_000 * k,
        v.sizing.l == (v.fs + 25) / 50,
        v.sizing.m1 == v.sizing.l as int / 4,
        v.sizing.n == v.sizing.l + v.sizing.m1,
        v.sizing.d == (v.fs + 12_000) / 24_000,
        v.sizing.ns == v.sizing.n as int / v.sizing.d as int,
        v.sizing.olen == v.sizing.l as int / v.sizing.d as int,
        v.carry.len() == v.sizing.m1,
        forall|s: Seq<T>| s.len() == v.sizing.ns ==> (#[trigger] inverse(s)).len() == s.len(),
    ensures
        ({
            let blocks = blocks_over(v, pieces, forward, inverse);
            let whole = pieces.flatten().len() as int / (v.fs as int / 50);
            let c = v.channels.len() as int;
            &&& blocks.len() == whole * c
            &&& forall|i: int, j: int|
                #![trigger blocks[i * c + j]]
                0 <= i < whole && 0 <= j < c ==> blocks[i * c + j].ssrc == v.channels[j].ssrc
                    && blocks[i * c + j].samples.len() == 480
        }),
{
    law_sizes_fit(v.sizing, k);
    law_pieces_do_not_matter(v, pieces, forward, inverse);
    let l = v.sizing.l as int;
    let m1 = v.sizing.m1 as int;
    let stream = v.carry + pieces.flatten();
    let windows = windows_of(stream, l, m1);
    let blocks = blocks_over(v, pieces, forward, inverse);
    let c = v.channels.len() as int;
    assert(v.fs as int / 50 == l);
    let whole = pieces.flatten().len() as int / l;
    vstd::arithmetic::div_mod::lemma_div_pos_is_pos(pieces.flatten().len() as int, l);
    assert(windows.len() == whole);
    assert forall|i: int, j: int|
        #![trigger blocks[i * c + j]]
        0 <= i < whole && 0 <= j < c implies blocks[i * c + j].ssrc == v.channels[j].ssrc
        && blocks[i * c + j].samples.len() == 480 by {
        lemma_block_at(v, windows, forward, inverse, i, j);
    }
}

/// Bin `k` of a slice of `ns` bins is the bin of the spectrum that lies `k` bins above the
/// channel's centre for the lower half of the slice, and `ns - k` bins below it for the
/// upper half, counted round the spectrum, whichever side of DC the channel is on.
pub proof fn law_slice_round_centre<T>(spectrum: Seq<T>, shift: int, ns: int, k: int)
    requires
        spectrum.len() > 0,
        0 <= k < ns,
    ensures
        slice_of(spectrum, shift, ns).len() == ns,
        exists|b: int, turns: int|
            #![trigger spectrum[b], spectrum.len() * turns]
            0 <= b < spectrum.len() && slice_of(spectrum, shift, ns)[k] == spectrum[b] && b
                + spectrum.len() * turns == shift + if k < ns / 2 {
                k
            } else {
                k - ns
            },
{
    let n = spectrum.len() as int;
    let at = shift + if k < ns / 2 {
        k
    } else {
        k - ns
    };
    vstd::arithmetic::div_mod::lemma_fundamental_div_mod(at, n);
    let b = at % n;
    let turns = at / n;
    assert(0 <= b < n);
    assert(b + spectrum.len() * turns == at);
    assert(slice_of(spectrum, shift, ns)[k] == spectrum[b]);
}

/// Turning the spectrum by one bin and tuning one bin higher gives the same slice.
pub proof fn law_slice_follows_rotation<T>(spectrum: Seq<T>, turned: Seq<T>, shift: int, ns: int)
    requires
        spectrum.len() > 0,
        ns >= 0,
        turned.len() == spectrum.len(),
        forall|i: int|
            0 <= i < spectrum.len() ==> #[trigger] spectrum[i] == turned[if i + 1
                < spectrum.len() {
                i + 1
            } else {
                0
            }],
    ensures
        slice_of(turned, shift + 1, ns) == slice_of(spectrum, shift, ns),
{
    let n = spectrum.len() as int;
    assert forall|k: int| 0 <= k < ns implies slice_of(turned, shift + 1, ns)[k] == slice_of(
        spectrum,
        shift,
        ns,
    )[k] by {
        let at = shift + signed_bin(k, ns);
        let b = at % n;
        let q = at / n;
        vstd::arithmetic::div_mod::lemma_fundamental_div_mod(at, n);
        assert(n * q == q * n) by (nonlinear_arith);
        if b + 1 < n {
            vstd::arithmetic::div_mod::lemma_fundamental_div_mod_converse(at + 1, n, q, b + 1);
        } else {
            assert((q + 1) * n == q * n + n) by (nonlinear_arith);
            vstd::arithmetic::div_mod::lemma_fundamental_div_mod_converse(at + 1, n, q + 1, 0);
        }
        assert(spectrum[b] == turned[if b + 1 < n {
            b + 1
        } else {
            0
        }]);
        assert(shift + 1 + signed_bin(k, ns) == at + 1);
    }
    assert(slice_of(turned, shift + 1, ns) =~= slice_of(spectrum, shift, ns));
}

/// At the centre of the capture a slice is the start of the spectrum, then its end.
pub proof fn law_slice_at_dc<T>(spectrum: Seq<T>, ns: int)
    requires
        spectrum.len() > 0,
        0 <= ns <= spectrum.len(),
    ensures
        slice_of(spectrum, 0, ns) == spectrum.take(ns / 2) + spectrum.skip(
            spectrum.len() - (ns - ns / 2),
        ),
{
    let n = spectrum.len() as int;
    let joined = spectrum.take(ns / 2) + spectrum.skip(n - (ns - ns / 2));
    assert forall|k: int| 0 <= k < ns implies slice_of(spectrum, 0, ns)[k] == joined[k] by {
        if k < ns / 2 {
            vstd::arithmetic::div_mod::lemma_small_mod(k as nat, n as nat);
        } else {
            vstd::arithmetic::div_mod::lemma_fundamental_div_mod_converse(
                k - ns,
                n,
                -1,
                n + k - ns,
            );
        }
    }
    assert(slice_of(spectrum, 0, ns) =~= joined);
}

/// Slices come spectrum by spectrum, and for each spectrum channel by channel; each is
/// tagged with its channel and taken from its own spectrum at its own place.
pub proof fn law_slices_by_channel<T>(
    spectra: Seq<Seq<T>>,
    channels: Seq<Channel>,
    ns: int,
    i: int,
    j: int,
)
    requires
        0 <= i < spectra.len(),
        0 <= j < channels.len(),
    ensures
        ({
            let slices = slices_of(spectra, channels, ns);
            let at = i * channels.len() + j;
            &&& slices.len() == spectra.len() * channels.len()
            &&& 0 <= at < slices.len()
            &&& slices[at].ssrc == channels[j].ssrc
            &&& slices[at].samples == slice_of(spectra[i], channels[j].shift as int, ns)
        }),
{
    let c = channels.len() as int;
    vstd::arithmetic::div_mod::lemma_fundamental_div_mod_converse(i * c + j, c, i, j);
    assert(0 <= i * c + j < spectra.len() * c) by (nonlinear_arith)
        requires
            0 <= i < spectra.len(),
            0 <= j < c,
    ;
}

/// Of each transformed slice exactly the last `olen` samples are kept, in their order and
/// under their tag.
pub proof fn law_last_samples_kept<T>(blocks: Seq<BlockView<T>>, olen: int, i: int)
    requires
        0 <= i < blocks.len(),
        0 <= olen <= blocks[i].samples.len(),
    ensures
        valid_of(blocks, olen).len() == blocks.len(),
        valid_of(blocks, olen)[i].ssrc == blocks[i].ssrc,
        valid_of(blocks, olen)[i].samples.len() == olen,
        blocks[i].samples.take(blocks[i].samples.len() - olen) + valid_of(blocks, olen)[i].samples
            == blocks[i].samples,
{
    let s = blocks[i].samples;
    assert(s.take(s.len() - olen) + s.skip(s.len() - olen) =~= s);
}

/// The new samples of the windows, joined, and the samples left over are the stream behind
/// its first overlap: nothing is lost, repeated or moved. The first window starts with the
/// stream, and what is left over is the overlap and less than a block.
pub proof fn law_windows_cover_stream<T>(stream: Seq<T>, l: int, m1: int)
    requires
        l > 0,
        0 <= m1 <= stream.len(),
    ensures
        windows_of(stream, l, m1).map_values(|w: Seq<T>| w.skip(m1)).flatten() + rest_of(
            stream,
            l,
            m1,
        ).skip(m1) == stream.skip(m1),
        m1 <= rest_of(stream, l, m1).len() < l + m1,
        windows_of(stream, l, m1).len() > 0 ==> windows_of(stream, l, m1)[0] == stream.take(m1 + l),
        forall|i: int|
            0 <= i < windows_of(stream, l, m1).len() ==> (#[trigger] windows_of(
                stream,
                l,
                m1,
            )[i]).len() == m1 + l,
    decreases stream.len(),
{
    let news = |w: Seq<T>| w.skip(m1);
    let windows = windows_of(stream, l, m1);
    let c = block_count(stream.len() as int, l, m1);
    lemma_rest_len(stream, l, m1);
    vstd::arithmetic::div_mod::lemma_fundamental_div_mod(stream.len() - m1, l);
    vstd::arithmetic::div_mod::lemma_div_pos_is_pos(stream.len() - m1, l);
    assert(l * c == c * l) by (nonlinear_arith);
    assert forall|i: int| 0 <= i < windows.len() implies (#[trigger] windows[i]).len() == m1
        + l by {
        assert(0 <= i * l && i * l + l <= c * l) by (nonlinear_arith)
            requires
                0 <= i < c,
                l > 0,
        ;
    }
    if stream.len() < m1 + l {
        vstd::arithmetic::div_mod::lemma_basic_div(stream.len() - m1, l);
        assert(windows.map_values(news) =~= Seq::<Seq<T>>::empty());
        assert(0 * l == 0);
        assert(rest_of(stream, l, m1) =~= stream);
        assert(windows.map_values(news).flatten() + stream.skip(m1) =~= stream.skip(m1));
    } else {
        let tail = stream.skip(l);
        law_windows_cover_stream(tail, l, m1);
        let c1 = block_count(tail.len() as int, l, m1);
        assert((c - 1) * l == c * l - l) by (nonlinear_arith);
        vstd::arithmetic::div_mod::lemma_fundamental_div_mod_converse(
            tail.len() - m1,
            l,
            c - 1,
            (stream.len() - m1) % l,
        );
        assert(c1 == c - 1);
        let later = windows_of(tail, l, m1);
        assert(c >= 1) by (nonlinear_arith)
            requires
                l * c + (stream.len() - m1) % l == stream.len() - m1,
                (stream.len() - m1) % l < l,
                stream.len() - m1 >= l,
                l > 0,
        ;
        assert forall|i: int| 0 <= i < c - 1 implies windows[i + 1] == later[i] by {
            assert((i + 1) * l == i * l + l) by (nonlinear_arith);
            assert(0 <= i * l && i * l + 2 * l <= c * l) by (nonlinear_arith)
                requires
                    0 <= i < c - 1,
                    l > 0,
            ;
            assert(windows[i + 1] =~= later[i]);
        }
        assert(0 * l == 0);
        assert(windows[0] =~= stream.take(m1 + l));
        assert(windows.map_values(news).drop_first() =~= later.map_values(news));
        assert(windows.map_values(news).first() =~= stream.subrange(m1, m1 + l));
        assert(0 <= (c - 1) * l) by (nonlinear_arith)
            requires
                c >= 1,
                l > 0,
        ;
        assert(rest_of(stream, l, m1) =~= rest_of(tail, l, m1));
        assert(windows.map_values(news).flatten() == stream.subrange(m1, m1 + l)
            + later.map_values(news).flatten());
        assert(stream.subrange(m1, m1 + l) + tail.skip(m1) =~= stream.skip(m1));
        assert(windows.map_values(news).flatten() + rest_of(stream, l, m1).skip(m1)
            =~= stream.subrange(m1, m1 + l) + (later.map_values(news).flatten() + rest_of(
            tail,
            l,
            m1,
        ).skip(m1)));
    }
}

/// A rounded quotient lies within half of the exact one.
proof fn lemma_round_even(a: int, b: int)
    requires
        a >= 0,
        b > 0,
    ensures
        2 * (round_even(a, b) * b) - 2 * a <= b,
        2 * a - 2 * (round_even(a, b) * b) <= b,
        round_even(a, b) >= 0,
{
    let q = a / b;
    let r = a % b;
    vstd::arithmetic::div_mod::lemma_fundamental_div_mod(a, b);
    vstd::arithmetic::div_mod::lemma_div_pos_is_pos(a, b);
    assert(b * q == q * b && (q + 1) * b == q * b + b) by (nonlinear_arith);
}

/// A channel is tuned to the bin nearest to it, at every rate: bin and channel are at most
/// half a bin apart, but for a part in 2^18 that double precision may add. Channels on
/// either side of the centre are treated alike.
pub proof fn law_tuned_to_nearest_bin(offset: int, fs: int, n: int)
    requires
        0 < n <= fs < 0x1_0000_0000,
        -0x1_0000_0000 < offset < 0x1_0000_0000,
    ensures
        nearest_bin(-offset, fs, n) == -nearest_bin(offset, fs, n),
        0x8_0000 * (nearest_bin(offset, fs, n) * fs - offset * n) <= 0x4_0001 * fs,
        0x8_0000 * (offset * n - nearest_bin(offset, fs, n) * fs) <= 0x4_0001 * fs,
{
    let o = if offset >= 0 {
        offset
    } else {
        -offset
    };
    lemma_bins_up(o, fs, n);
    if offset < 0 {
        let r = bins_up(o, fs, n);
        assert((-r) * fs == -(r * fs)) by (nonlinear_arith);
        assert((-o) * n == -(o * n)) by (nonlinear_arith);
    }
    if offset == 0 {
        assert(bins_up(0, fs, n) == 0);
    }
}

proof fn lemma_bins_up(o: int, fs: int, n: int)
    requires
        0 < n <= fs < 0x1_0000_0000,
        0 <= o < 0x1_0000_0000,
    ensures
        0x8_0000 * (bins_up(o, fs, n) * fs - o * n) <= 0x4_0001 * fs,
        0x8_0000 * (o * n - bins_up(o, fs, n) * fs) <= 0x4_0001 * fs,
        o == 0 ==> bins_up(o, fs, n) == 0,
{
    let s = double_scale(fs, n);
    lemma_scale(fs, n);
    let w = round_even(fs * s, n);
    assert(fs * s >= 0) by (nonlinear_arith)
        requires
            fs > 0,
            s > 0,
    ;
    lemma_round_even(fs * s, n);
    assert(w > 0) by (nonlinear_arith)
        requires
            2 * (fs * s) - 2 * (w * n) <= n,
            fs * s >= 0x10_0000_0000_0000 * n,
            n > 0,
    ;
    if o == 0 {
        assert(o * s == 0) by (nonlinear_arith)
            requires
                o == 0,
        ;
        assert(double_scale(0, w) == 1);
        assert(0int / w == 0 && 0int % w == 0) by (nonlinear_arith)
            requires
                w > 0,
        ;
        let none = double_quotient(o * s, w);
        assert(none.1 == 1);
        assert((o * s) * none.1 == 0) by (nonlinear_arith)
            requires
                o * s == 0,
        ;
        assert(round_even(0, w) == 0);
        assert(none.0 == 0);
        assert((2 * none.0 + none.1) / (2 * none.1) == 0) by (nonlinear_arith)
            requires
                none.0 == 0,
                none.1 == 1,
        ;
        assert(bins_up(o, fs, n) == 0);
        assert(bins_up(o, fs, n) * fs == 0 && o * n == 0) by (nonlinear_arith)
            requires
                bins_up(o, fs, n) == 0,
                o == 0,
        ;
    } else {
        let a = o * s;
        assert(a > 0) by (nonlinear_arith)
            requires
                o > 0,
                s > 0,
                a == o * s,
        ;
        let t = double_scale(a, w);
        lemma_scale(a, w);
        let q = round_even(a * t, w);
        assert(a * t >= 0) by (nonlinear_arith)
            requires
                a > 0,
                t > 0,
        ;
        lemma_round_even(a * t, w);
        let r = bins_up(o, fs, n);
        assert(r == (2 * q + t) / (2 * t));
        vstd::arithmetic::div_mod::lemma_fundamental_div_mod(2 * q + t, 2 * t);
        vstd::arithmetic::div_mod::lemma_div_pos_is_pos(2 * q + t, 2 * t);
        lemma_error(o, fs, n, s, w, t, q, r);
    }
}

/// What the three roundings of tuning add up to.
proof fn lemma_error(o: int, fs: int, n: int, s: int, w: int, t: int, q: int, r: int)
    requires
        0 < n <= fs < 0x1_0000_0000,
        0 < o < 0x1_0000_0000,
        s > 0,
        w > 0,
        t > 0,
        q >= 0,
        r >= 0,
        fs * s >= 0x10_0000_0000_0000 * n,
        2 * (w * n) - 2 * (fs * s) <= n,
        2 * (fs * s) - 2 * (w * n) <= n,
        (o * s) * t >= 0x10_0000_0000_0000 * w,
        2 * (q * w) - 2 * ((o * s) * t) <= w,
        2 * ((o * s) * t) - 2 * (q * w) <= w,
        2 * t * r <= 2 * q + t < 2 * t * r + 2 * t,
    ensures
        0x8_0000 * (r * fs - o * n) <= 0x4_0001 * fs,
        0x8_0000 * (o * n - r * fs) <= 0x4_0001 * fs,
{
    let rt = r * t;
    assert(2 * t * r == 2 * rt) by (nonlinear_arith)
        requires
            rt == r * t,
    ;
    let e = r * fs - o * n;
    let wn = w * n;
    let st = s * t;
    // The scaled error is the sum of three.
    let ost = (o * s) * t;
    assert(st * e == st * (r * fs) - st * (o * n)) by (nonlinear_arith)
        requires
            e == r * fs - o * n,
    ;
    assert(st * (r * fs) == rt * (fs * s)) by (nonlinear_arith)
        requires
            st == s * t,
            rt == r * t,
    ;
    assert(st * (o * n) == ost * n) by (nonlinear_arith)
        requires
            st == s * t,
            ost == (o * s) * t,
    ;
    assert((q * w) * n == q * wn) by (nonlinear_arith)
        requires
            wn == w * n,
    ;
    assert((rt - q) * wn == rt * wn - q * wn) by (nonlinear_arith);
    assert((q * w - ost) * n == (q * w) * n - ost * n) by (nonlinear_arith);
    assert(rt * (fs * s - wn) == rt * (fs * s) - rt * wn) by (nonlinear_arith);
    assert(st * e == (rt - q) * wn + (q * w - ost) * n + rt * (fs * s - wn));
    assert(-(t * wn) <= 2 * ((rt - q) * wn) <= t * wn) by (nonlinear_arith)
        requires
            -t <= 2 * (rt - q) <= t,
            wn >= 0,
            wn == w * n,
            w > 0,
            n > 0,
    ;
    let d2 = q * w - ost;
    assert(-wn <= 2 * (d2 * n) <= wn) by (nonlinear_arith)
        requires
            -w <= 2 * d2 <= w,
            n > 0,
            wn == w * n,
    ;
    let d3 = fs * s - wn;
    assert(rt >= 0) by (nonlinear_arith)
        requires
            rt == r * t,
            r >= 0,
            t > 0,
    ;
    assert(-(rt * n) <= 2 * (rt * d3) <= rt * n) by (nonlinear_arith)
        requires
            -n <= 2 * d3 <= n,
            rt >= 0,
    ;
    let b = t * wn + wn + rt * n;
    assert(-b <= 2 * (st * e) <= b);
    // The bound: each part is at most `fs` times `st`, scaled.
    assert(st > 0) by (nonlinear_arith)
        requires
            st == s * t,
            s > 0,
            t > 0,
    ;
    let f = fs * st;
    let fss = fs * s;
    assert(f == fss * t) by (nonlinear_arith)
        requires
            f == fs * st,
            st == s * t,
            fss == fs * s,
    ;
    // wn is fs s but for n/2, and n is a small part of fs s.
    assert(2 * 0x10_0000_0000_0000 * wn <= 2 * 0x10_0000_0000_0000 * fss + fss) by (nonlinear_arith)
        requires
            2 * wn - 2 * fss <= n,
            fss >= 0x10_0000_0000_0000 * n,
    ;
    assert(2 * 0x10_0000_0000_0000 * (t * wn) <= 2 * 0x10_0000_0000_0000 * f + f)
        by (nonlinear_arith)
        requires
            2 * 0x10_0000_0000_0000 * wn <= 2 * 0x10_0000_0000_0000 * fss + fss,
            f == fss * t,
            t > 0,
    ;
    // t is large: the offset in bins is below 2^32.
    assert(2 * 0x10_0000_0000_0000 * fss <= 2 * 0x10_0000_0000_0000 * wn + fss) by (nonlinear_arith)
        requires
            2 * fss - 2 * wn <= n,
            fss >= 0x10_0000_0000_0000 * n,
    ;
    let ot = o * t;
    assert((o * s) * t == ot * s) by (nonlinear_arith)
        requires
            ot == o * t,
    ;
    assert(ot * (s * n) >= 0x10_0000_0000_0000 * wn) by (nonlinear_arith)
        requires
            ot * s >= 0x10_0000_0000_0000 * w,
            n > 0,
            wn == w * n,
    ;
    assert(s * n <= fss) by (nonlinear_arith)
        requires
            n <= fs,
            s > 0,
            fss == fs * s,
    ;
    assert(ot > 0) by (nonlinear_arith)
        requires
            ot == o * t,
            o > 0,
            t > 0,
    ;
    assert(ot * fss >= 0x10_0000_0000_0000 * wn) by (nonlinear_arith)
        requires
            ot * (s * n) >= 0x10_0000_0000_0000 * wn,
            s * n <= fss,
            ot > 0,
    ;
    assert(fss > 0) by (nonlinear_arith)
        requires
            fss == fs * s,
            fs > 0,
            s > 0,
    ;
    assert(2 * ot >= 2 * 0x10_0000_0000_0000 - 1) by (nonlinear_arith)
        requires
            ot * fss >= 0x10_0000_0000_0000 * wn,
            2 * 0x10_0000_0000_0000 * fss <= 2 * 0x10_0000_0000_0000 * wn + fss,
            fss > 0,
    ;
    assert(0x10_0000 <= t) by (nonlinear_arith)
        requires
            2 * ot >= 2 * 0x10_0000_0000_0000 - 1,
            ot == o * t,
            0 < o < 0x1_0000_0000,
            t > 0,
    ;
    assert(0x10_0000 * wn <= t * wn) by (nonlinear_arith)
        requires
            0x10_0000 <= t,
            wn >= 0,
            wn == w * n,
            w > 0,
            n > 0,
    ;
    // So is the width of a bin, and the bins counted are few in comparison.
    assert(w >= 0x10_0000_0000_0000) by (nonlinear_arith)
        requires
            2 * fss - 2 * wn <= n,
            fss >= 0x10_0000_0000_0000 * n,
            wn == w * n,
            n > 0,
    ;
    assert(0x10_0000_0000_0000 * q <= q * w) by (nonlinear_arith)
        requires
            w >= 0x10_0000_0000_0000,
            q >= 0,
    ;
    assert(2 * (0x10_0000_0000_0000 * (q * n)) <= 2 * (ot * (s * n)) + wn) by (nonlinear_arith)
        requires
            2 * (0x10_0000_0000_0000 * q) <= 2 * (ot * s) + w,
            n > 0,
            wn == w * n,
    ;
    assert(ot * fss == o * f) by (nonlinear_arith)
        requires
            f == fss * t,
            ot == o * t,
    ;
    assert(ot * (s * n) <= o * f) by (nonlinear_arith)
        requires
            s * n <= fss,
            ot > 0,
            ot * fss == o * f,
    ;
    assert(f > 0) by (nonlinear_arith)
        requires
            f == fss * t,
            fss > 0,
            t > 0,
    ;
    assert(o * f <= 0x1_0000_0000 * f) by (nonlinear_arith)
        requires
            o < 0x1_0000_0000,
            f > 0,
    ;
    assert(0x10_0000_0000_0000 * (t * n) <= f) by (nonlinear_arith)
        requires
            fss >= 0x10_0000_0000_0000 * n,
            f == fss * t,
            t > 0,
    ;
    assert(2 * (rt * n) <= 2 * (q * n) + t * n) by (nonlinear_arith)
        requires
            2 * rt <= 2 * q + t,
            n > 0,
    ;
    let (twn, qn, tn, rtn) = (t * wn, q * n, t * n, rt * n);
    let otsn = ot * (s * n);
    assert(0x4_0000 * (twn + wn + rtn) <= 0x4_0001 * f) by (nonlinear_arith)
        requires
            2 * 0x10_0000_0000_0000 * twn <= 2 * 0x10_0000_0000_0000 * f + f,
            0x10_0000 * wn <= twn,
            2 * (0x10_0000_0000_0000 * qn) <= 2 * otsn + wn,
            otsn <= 0x1_0000_0000 * f,
            0x10_0000_0000_0000 * tn <= f,
            2 * rtn <= 2 * qn + tn,
            f > 0,
    ;
    assert(0x8_0000 * e <= 0x4_0001 * fs && -(0x8_0000 * e) <= 0x4_0001 * fs)
        by (nonlinear_arith)
        requires
            -b <= 2 * (st * e) <= b,
            0x4_0000 * b <= 0x4_0001 * f,
            f == fs * st,
            st > 0,
    {
        assert(0x8_0000 * (st * e) <= 0x4_0001 * (fs * st));
        assert(st * (0x8_0000 * e) <= st * (0x4_0001 * fs));
        assert(st * (-(0x8_0000 * e)) <= st * (0x4_0001 * fs));
    }
}

/// A quotient in double precision is the nearest number of 53 bits, and of two that are as near
/// the even one: the second number is a power of two, and the first over the second is the
/// quotient.
pub proof fn law_double_quotient(a: int, b: int)
    requires
        0 < a < 0x10_0000_0000_0000 * b,
    ensures
        ({
            let (m, s) = double_quotient(a, b);
            &&& exists|k: nat| s == #[trigger] vstd::arithmetic::power2::pow2(k)
            &&& 0x10_0000_0000_0000 * b <= a * s < 0x20_0000_0000_0000 * b
            &&& -b <= 2 * (m * b - a * s) <= b
            &&& 2 * (m * b - a * s) == b || 2 * (a * s - m * b) == b ==> m % 2 == 0
        }),
{
    let s = double_scale(a, b);
    let k = lemma_scale_power(a, b);
    assert(s == vstd::arithmetic::power2::pow2(k));
    let n = a * s;
    let q = n / b;
    let r = n % b;
    vstd::arithmetic::div_mod::lemma_fundamental_div_mod(n, b);
    assert(b * q == q * b && (q + 1) * b == q * b + b) by (nonlinear_arith);
}

proof fn lemma_scale_power(a: int, b: int) -> (k: nat)
    requires
        0 < a < 0x20_0000_0000_0000 * b,
    ensures
        double_scale(a, b) == vstd::arithmetic::power2::pow2(k),
        0x10_0000_0000_0000 * b <= a * double_scale(a, b) < 0x20_0000_0000_0000 * b,
    decreases 0x20_0000_0000_0000 * b - a,
{
    if a < 0x10_0000_0000_0000 * b {
        let k = lemma_scale_power(2 * a, b);
        vstd::arithmetic::power2::lemma_pow2_unfold(k + 1);
        let t = double_scale(2 * a, b);
        assert(a * (2 * t) == (2 * a) * t) by (nonlinear_arith);
        k + 1
    } else {
        vstd::arithmetic::power2::lemma2_to64();
        0
    }
}

/// The bin of a channel above the centre is the double-precision quotient of its offset and the
/// double-precision width of a bin, to the nearest whole number, halves away from the
/// centre.
pub proof fn law_bin_is_rounded_quotient(offset: int, fs: int, n: int)
    requires
        0 < n <= fs < 0x1_0000_0000,
        0 < offset < 0x1_0000_0000,
    ensures
        ({
            let width = double_quotient(fs, n);
            let bins = double_quotient(offset * width.1, width.0);
            let r = nearest_bin(offset, fs, n);
            &&& bins.1 > 0
            &&& -bins.1 < 2 * (r * bins.1 - bins.0) <= bins.1
        }),
{
    law_double_quotient(fs, n);
    let (w, s) = double_quotient(fs, n);
    lemma_scale(fs, n);
    assert(w >= 0x10_0000_0000_0000) by (nonlinear_arith)
        requires
            0x10_0000_0000_0000 * n <= fs * s,
            2 * (fs * s - w * n) <= n,
            n > 0,
    ;
    let a = offset * s;
    assert(a > 0) by (nonlinear_arith)
        requires
            offset > 0,
            s > 0,
            a == offset * s,
    ;
    lemma_scale(a, w);
    let (b, t) = double_quotient(a, w);
    let x = 2 * b + t;
    let r = x / (2 * t);
    vstd::arithmetic::div_mod::lemma_fundamental_div_mod(x, 2 * t);
    assert((2 * t) * r == 2 * (r * t)) by (nonlinear_arith);
}

} // verus!
