//! The SDR source: what it is configured with, what its reader decides, and the level
//! statistics that it reports.

use vstd::prelude::*;

use crate::config::DecoderConfig;
use crate::sdr::device::Gain;
use crate::sdr::fm::FmParams;
use crate::text;

verus! {

/// Time between status lines, in nanoseconds.
pub const LEVEL_REPORT_INTERVAL: u64 = 60_000_000_000;

/// Everything that an SDR source needs.
#[derive(Debug, Clone)]
pub struct SdrSourceConfig {
    pub device_index: usize,
    /// Tuner centre frequency in Hz.
    pub center_freq: u32,
    /// Complex sample rate in Hz.
    pub sample_rate: u32,
    pub gain: Gain,
    pub freq_correction_ppm: i32,
    /// Channel centre frequencies in Hz.
    pub channels: Vec<u32>,
    pub fm: FmParams,
    pub decoder: DecoderConfig,
}

/// Distance of a channel from the centre frequency.
pub open spec fn distance(ch: u32, center: u32) -> nat {
    if ch >= center {
        (ch - center) as nat
    } else {
        (center - ch) as nat
    }
}

/// The channel lies at or beyond half the sample rate, where it would alias.
pub open spec fn aliases(ch: u32, center: u32, sample_rate: u32) -> bool {
    2 * distance(ch, center) >= sample_rate
}

/// The channel lies past four fifths of the usable band, where it is attenuated.
pub open spec fn near_edge(ch: u32, center: u32, sample_rate: u32) -> bool {
    5 * distance(ch, center) > 2 * sample_rate
}

/// Half of a number as a whole number: halves go to the even neighbour.
pub open spec fn half_even(n: u32) -> nat {
    let q = n / 2;
    if n % 2 == 1 && q % 2 == 1 {
        (q + 1) as nat
    } else {
        q as nat
    }
}

/// Why a channel is refused.
pub open spec fn alias_message(ch: u32, center: u32, sample_rate: u32) -> Seq<char> {
    "channel "@ + text::decimal(ch as nat) + " Hz is "@ + text::decimal(distance(ch, center))
        + " Hz from centre "@ + text::decimal(center as nat) + " Hz — beyond ±Fs/2 ("@
        + text::decimal(half_even(sample_rate))
        + " Hz); it would alias. Raise the sample rate or move the centre."@
}

/// Position of the first channel that would alias, at or after `i`; the length if none
/// would.
pub open spec fn first_alias(channels: Seq<u32>, center: u32, sample_rate: u32, i: int) -> int
    decreases channels.len() - i,
{
    if i >= channels.len() || aliases(channels[i], center, sample_rate) {
        i
    } else {
        first_alias(channels, center, sample_rate, i + 1)
    }
}

/// One channel to receive.
#[derive(Debug, Clone, Copy, PartialEq, Eq, Structural)]
pub struct PlannedChannel {
    /// Channel identifier: its frequency in kHz.
    pub ssrc: u32,
    /// Offset from the centre frequency in Hz.
    pub offset_hz: i64,
}

/// The plan for a channel.
pub open spec fn planned(ch: u32, center: u32) -> PlannedChannel {
    PlannedChannel { ssrc: ch / 1000, offset_hz: (ch - center) as i64 }
}

fn distance_of(ch: u32, center: u32) -> (r: u32)
    ensures
        r == distance(ch, center),
{
    if ch >= center {
        ch - center
    } else {
        center - ch
    }
}

fn alias_text(ch: u32, center: u32, sample_rate: u32) -> (r: String)
    ensures
        r@ == alias_message(ch, center, sample_rate),
{
    let q: u32 = sample_rate / 2;
    let half: u64 = if sample_rate % 2 == 1 && q % 2 == 1 {
        q as u64 + 1
    } else {
        q as u64
    };
    let mut s: String = String::new();
    text::push_text(&mut s, "channel ");
    assert(s@ =~= "channel "@);
    text::push_decimal(&mut s, ch as u64);
    text::push_text(&mut s, " Hz is ");
    text::push_decimal(&mut s, distance_of(ch, center) as u64);
    text::push_text(&mut s, " Hz from centre ");
    text::push_decimal(&mut s, center as u64);
    text::push_text(&mut s, " Hz — beyond ±Fs/2 (");
    text::push_decimal(&mut s, half);
    text::push_text(
        &mut s,
        " Hz); it would alias. Raise the sample rate or move the centre.",
    );
    s
}

impl SdrSourceConfig {
    /// Refuse a configuration that cannot work: no channels, or one that would alias.
    pub fn validate(&self) -> (r: Result<(), String>)
        ensures
            ({
                let n = self.channels@.len();
                let k = first_alias(self.channels@, self.center_freq, self.sample_rate, 0);
                match r {
                    Ok(_) => n > 0 && k >= n,
                    Err(e) => if n == 0 {
                        e@ == "no channels configured"@
                    } else {
                        k < n && e@ == alias_message(
                            self.channels@[k],
                            self.center_freq,
                            self.sample_rate,
                        )
                    },
                }
            }),
    {
        if self.channels.len() == 0 {
            let mut e: String = String::new();
            text::push_text(&mut e, "no channels configured");
            assert(e@ =~= "no channels configured"@);
            return Err(e);
        }
        let mut i: usize = 0;
        while i < self.channels.len()
            invariant
                i <= self.channels@.len(),
                first_alias(self.channels@, self.center_freq, self.sample_rate, 0) == first_alias(
                    self.channels@,
                    self.center_freq,
                    self.sample_rate,
                    i as int,
                ),
            decreases self.channels@.len() - i,
        {
            let ch: u32 = self.channels[i];
            if 2 * (distance_of(ch, self.center_freq) as u64) >= self.sample_rate as u64 {
                return Err(alias_text(ch, self.center_freq, self.sample_rate));
            }
            i = i + 1;
        }
        Ok(())
    }

    /// The channels that deserve a warning: those before any that would alias which lie
    /// near the edge of the band.
    pub fn edge_channels(&self) -> (r: Vec<u32>)
        ensures
            r@ == self.channels@.take(
                first_alias(self.channels@, self.center_freq, self.sample_rate, 0),
            ).filter(|ch: u32| near_edge(ch, self.center_freq, self.sample_rate)),
    {
        let ghost edge = |ch: u32| near_edge(ch, self.center_freq, self.sample_rate);
        let mut r: Vec<u32> = Vec::new();
        let mut i: usize = 0;
        proof {
            reveal(Seq::filter);
        }
        while i < self.channels.len() && 2 * (distance_of(
            self.channels[i],
            self.center_freq,
        ) as u64) < self.sample_rate as u64
            invariant
                i <= self.channels@.len(),
                edge == (|ch: u32| near_edge(ch, self.center_freq, self.sample_rate)),
                first_alias(self.channels@, self.center_freq, self.sample_rate, 0) == first_alias(
                    self.channels@,
                    self.center_freq,
                    self.sample_rate,
                    i as int,
                ),
                r@ == self.channels@.take(i as int).filter(edge),
            decreases self.channels@.len() - i,
        {
            let ch: u32 = self.channels[i];
            proof {
                reveal(Seq::filter);
                assert(self.channels@.take(i + 1).drop_last() =~= self.channels@.take(i as int));
            }
            if 5 * (distance_of(ch, self.center_freq) as u64) > 2 * (self.sample_rate as u64) {
                r.push(ch);
            }
            i = i + 1;
        }
        r
    }

    /// What to tune each channel to.
    pub fn channel_plan(&self) -> (r: Vec<PlannedChannel>)
        ensures
            r@ == self.channels@.map_values(|ch: u32| planned(ch, self.center_freq)),
    {
        let mut r: Vec<PlannedChannel> = Vec::new();
        let mut i: usize = 0;
        while i < self.channels.len()
            invariant
                i <= self.channels@.len(),
                r@.len() == i,
                forall|j: int|
                    0 <= j < i ==> #[trigger] r@[j] == planned(
                        self.channels@[j],
                        self.center_freq,
                    ),
            decreases self.channels@.len() - i,
        {
            let ch: u32 = self.channels[i];
            r.push(
                PlannedChannel {
                    ssrc: ch / 1000,
                    offset_hz: ch as i64 - self.center_freq as i64,
                },
            );
            i = i + 1;
        }
        assert(r@ =~= self.channels@.map_values(|ch: u32| planned(ch, self.center_freq)));
        r
    }
}

/// A configuration is accepted exactly if it has channels and each of them lies less
/// than half the sample rate from the centre.
pub proof fn law_accepted_channels(channels: Seq<u32>, center: u32, sample_rate: u32)
    ensures
        first_alias(channels, center, sample_rate, 0) >= channels.len() <==> forall|i: int|
            0 <= i < channels.len() ==> 2 * distance(#[trigger] channels[i], center) < sample_rate,
{
    lemma_first_alias(channels, center, sample_rate, 0);
}

proof fn lemma_first_alias(channels: Seq<u32>, center: u32, sample_rate: u32, i: int)
    requires
        0 <= i <= channels.len(),
    ensures
        ({
            let k = first_alias(channels, center, sample_rate, i);
            &&& i <= k <= channels.len()
            &&& k < channels.len() ==> aliases(channels[k], center, sample_rate)
            &&& forall|j: int|
                i <= j < k ==> !aliases(#[trigger] channels[j], center, sample_rate)
        }),
    decreases channels.len() - i,
{
    if i < channels.len() && !aliases(channels[i], center, sample_rate) {
        lemma_first_alias(channels, center, sample_rate, i + 1);
    }
}

/// What became of a buffer that the reader handed over.
#[derive(Debug, Clone, Copy, PartialEq, Eq, Structural)]
pub enum HandOver {
    /// It was taken.
    Sent,
    /// The queue is full.
    Full,
    /// The other side is gone.
    Disconnected,
}

/// What the reader does next.
#[derive(Debug, Clone, Copy, PartialEq, Eq, Structural)]
pub enum ReaderStep {
    /// Read on.
    Continue,
    /// Say that so many buffers have been dropped, and read on.
    Warn(u64),
    /// Release the device and end.
    Stop,
}

/// State of the reader.
#[derive(Debug, Clone, Copy, PartialEq, Eq, Structural)]
pub struct Reader {
    /// Buffers dropped because the signal processing was behind.
    pub dropped: u64,
    /// When the last status line was due, in nanoseconds.
    pub last_report: u64,
}

impl Reader {
    /// State after a buffer was handed over, and what to do next.
    pub open spec fn told(self, outcome: HandOver) -> (Reader, ReaderStep) {
        match outcome {
            HandOver::Sent => (self, ReaderStep::Continue),
            HandOver::Full => {
                let dropped = (self.dropped + 1) as u64;
                (
                    Reader { dropped, ..self },
                    if dropped % 50 == 1 {
                        ReaderStep::Warn(dropped)
                    } else {
                        ReaderStep::Continue
                    },
                )
            },
            HandOver::Disconnected => (self, ReaderStep::Stop),
        }
    }

    /// A status line is due.
    pub open spec fn due(self, now: u64) -> bool {
        now >= self.last_report && now - self.last_report >= LEVEL_REPORT_INTERVAL
    }

    /// State after it was asked whether a status line is due.
    pub open spec fn asked(self, now: u64) -> Reader {
        if self.due(now) {
            Reader { last_report: now, ..self }
        } else {
            self
        }
    }

    /// A reader that starts at time `now`.
    pub fn new(now: u64) -> (r: Self)
        ensures
            r == (Reader { dropped: 0, last_report: now }),
    {
        Reader { dropped: 0, last_report: now }
    }

    /// True if a status line is due, which starts a new reporting window.
    pub fn report_due(&mut self, now: u64) -> (r: bool)
        ensures
            r == (now >= old(self).last_report && now - old(self).last_report
                >= LEVEL_REPORT_INTERVAL),
            *final(self) == (Reader {
                last_report: if r {
                    now
                } else {
                    old(self).last_report
                },
                ..*old(self)
            }),
            r == old(self).due(now),
            *final(self) == old(self).asked(now),
    {
        if now >= self.last_report && now - self.last_report >= LEVEL_REPORT_INTERVAL {
            self.last_report = now;
            true
        } else {
            false
        }
    }

    /// Account for a buffer that was handed over. Every fiftieth loss, from the first
    /// one on, is worth a warning.
    pub fn handed_over(&mut self, outcome: HandOver) -> (r: ReaderStep)
        requires
            outcome == HandOver::Full ==> old(self).dropped < u64::MAX,
        ensures
            final(self).last_report == old(self).last_report,
            final(self).dropped == old(self).dropped + if outcome == HandOver::Full {
                1int
            } else {
                0
            },
            r == match outcome {
                HandOver::Sent => ReaderStep::Continue,
                HandOver::Full => if final(self).dropped % 50 == 1 {
                    ReaderStep::Warn(final(self).dropped)
                } else {
                    ReaderStep::Continue
                },
                HandOver::Disconnected => ReaderStep::Stop,
            },
            (*final(self), r) == old(self).told(outcome),
    {
        match outcome {
            HandOver::Sent => ReaderStep::Continue,
            HandOver::Full => {
                self.dropped = self.dropped + 1;
                if self.dropped % 50 == 1 {
                    ReaderStep::Warn(self.dropped)
                } else {
                    ReaderStep::Continue
                }
            },
            HandOver::Disconnected => ReaderStep::Stop,
        }
    }
}

/// The first channel that would alias is the first from the given place on that lies half
/// the sample rate or more from the centre, on either side.
pub proof fn law_first_alias(channels: Seq<u32>, center: u32, sample_rate: u32, k: int)
    ensures
        ({
            &&& 0 <= k < channels.len()
            &&& 2 * (channels[k] - center) >= sample_rate || 2 * (center - channels[k])
                >= sample_rate
            &&& forall|j: int|
                0 <= j < k ==> -(sample_rate as int) < 2 * (#[trigger] channels[j] - center)
                    < sample_rate
        }) ==> first_alias(channels, center, sample_rate, 0) == k,
        (forall|j: int|
            0 <= j < channels.len() ==> -(sample_rate as int) < 2 * (#[trigger] channels[j]
                - center) < sample_rate) ==> first_alias(channels, center, sample_rate, 0)
            == channels.len(),
{
    lemma_first_alias(channels, center, sample_rate, 0);
    let f = first_alias(channels, center, sample_rate, 0);
    if f < channels.len() {
        assert(aliases(channels[f], center, sample_rate));
    }
}

/// A channel is near the edge past four fifths of the half band, on either side of the centre
/// alike.
pub proof fn law_edge_is_symmetric(ch: u32, center: u32, sample_rate: u32)
    ensures
        near_edge(ch, center, sample_rate) <==> 10 * (ch - center) > 4 * sample_rate || 10 * (center
            - ch) > 4 * sample_rate,
        near_edge(ch, center, sample_rate) == near_edge(center, ch, sample_rate),
        aliases(ch, center, sample_rate) == aliases(center, ch, sample_rate),
        aliases(ch, center, sample_rate) && sample_rate > 0 ==> near_edge(ch, center, sample_rate),
{
}

/// A planned channel is named by its whole kilohertz, and centre and offset give back its
/// frequency.
pub proof fn law_plan_keeps_frequency(ch: u32, center: u32)
    ensures
        ({
            let p = planned(ch, center);
            &&& 1000 * p.ssrc <= ch < 1000 * p.ssrc + 1000
            &&& center + p.offset_hz == ch
        }),
{
}

/// The half band shown is within half a hertz of half the sample rate, and even where it is
/// not exact.
pub proof fn law_half_is_rounded_to_even(n: u32)
    ensures
        -1 <= 2 * half_even(n) - n <= 1,
        n % 2 == 1 ==> half_even(n) % 2 == 0,
{
}

/// A refusal names the channel, how far it lies from the centre on either side, the centre, and
/// half the sample rate.
pub proof fn law_alias_message(ch: u32, center: u32, sample_rate: u32, away: nat)
    requires
        center + away == ch || center - away == ch,
    ensures
        alias_message(ch, center, sample_rate) == "channel "@ + text::decimal(ch as nat)
            + " Hz is "@ + text::decimal(away) + " Hz from centre "@ + text::decimal(center as nat)
            + " Hz — beyond ±Fs/2 ("@ + text::decimal(half_even(sample_rate))
            + " Hz); it would alias. Raise the sample rate or move the centre."@,
{
}

/// A reader after buffers were handed over.
pub open spec fn told_all(r: Reader, outcomes: Seq<HandOver>) -> Reader
    decreases outcomes.len(),
{
    if outcomes.len() == 0 {
        r
    } else {
        told_all(r, outcomes.drop_last()).told(outcomes.last()).0
    }
}

/// A loss is a buffer that the queue had no room for, and every loss is counted. The first is
/// worth a warning, and each fiftieth after it, with the count so far; the reader stops
/// exactly when the other side is gone.
pub proof fn law_losses_are_counted(r: Reader, outcomes: Seq<HandOver>, next: HandOver)
    requires
        r.dropped + outcomes.len() < u64::MAX,
    ensures
        ({
            let now = told_all(r, outcomes);
            let lost = outcomes.filter(|o: HandOver| o is Full).len();
            let step = now.told(next).1;
            &&& now.dropped == r.dropped + lost
            &&& now.last_report == r.last_report
            &&& step is Stop <==> next is Disconnected
            &&& step is Warn <==> next is Full && (r.dropped + lost) % 50 == 0
            &&& step is Warn ==> step->Warn_0 == r.dropped + lost + 1
        }),
    decreases outcomes.len(),
{
    reveal(Seq::filter);
    let full = |o: HandOver| o is Full;
    outcomes.lemma_filter_len(full);
    if outcomes.len() > 0 {
        law_losses_are_counted(r, outcomes.drop_last(), next);
        outcomes.drop_last().lemma_filter_len(full);
    }
}

/// A status line is due a minute after the last one and not before; then none is due for a
/// minute. A clock that shows less than before makes none due.
pub proof fn law_one_report_a_minute(r: Reader, now: u64, later: u64)
    ensures
        r.due(now) <==> now >= r.last_report + 60_000_000_000,
        r.due(now) ==> (r.asked(now).due(later) <==> later >= now + 60_000_000_000),
        !r.due(now) ==> r.asked(now) == r,
        r.asked(now).dropped == r.dropped,
{
}

} // verus!
