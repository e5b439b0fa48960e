//! What a channel decoder promises as a whole.

use vstd::prelude::*;

use crate::afsk::dpll::DemodBit;
use crate::ax25::frame;
use crate::ax25::wire::UiFrame;
use crate::bits;
use crate::config::FixBits;
use crate::hdlc::fec;
use crate::hdlc::framer;
use crate::hdlc::line_code;
use crate::hdlc::recovery;
use crate::pipeline::stream_decoder;
use crate::pipeline::stream_decoder::{BlockInfo, Emitted, Pass, Sighting, StreamView};

verus! {

/// The levels that one slicer contributes to a block.
pub open spec fn levels_of(data: Seq<DemodBit>, slice: int) -> Seq<bool> {
    data.filter(|b: DemodBit| b.slice == slice).map_values(|b: DemodBit| b.bit)
}

/// A run of levels as bits of one slicer.
pub open spec fn on_slicer(line: Seq<bool>, slice: usize) -> Seq<DemodBit> {
    line.map_values(|bit: bool| DemodBit { bit, slice })
}

/// No frame is sighted twice, every sighting has a slicer, and every frame parses.
pub open spec fn sound(found: Seq<Sighting>, slicers: int) -> bool {
    &&& forall|i: int, j: int|
        0 <= i < j < found.len() ==> (#[trigger] found[i]).raw != (#[trigger] found[j]).raw
    &&& forall|i: int|
        0 <= i < found.len() ==> frame::parsed((#[trigger] found[i]).raw) is Some && exists|k: int|
            0 <= k < slicers && #[trigger] stream_decoder::in_mask(found[i].mask, k)
}

/// Each slicer has a framer of its own: what it holds after a block depends on its own
/// bits alone.
pub proof fn law_slicers_independent(pass: Pass, data: Seq<DemodBit>, fix_bits: FixBits, k: int)
    requires
        0 <= k < pass.links.len(),
    ensures
        pass.run(data, fix_bits).links.len() == pass.links.len(),
        pass.run(data, fix_bits).links[k] == line_code::feed(pass.links[k], levels_of(data, k)),
    decreases data.len(),
{
    let pick = |b: DemodBit| b.slice == k;
    let value = |b: DemodBit| b.bit;
    reveal(Seq::filter);
    if data.len() > 0 {
        let b = data.last();
        law_slicers_independent(pass, data.drop_last(), fix_bits, k);
        let before = data.drop_last().filter(pick);
        if b.slice == k {
            assert(data.filter(pick) =~= before.push(b));
            assert(levels_of(data, k) =~= levels_of(data.drop_last(), k).push(b.bit));
            assert(levels_of(data, k).drop_last() =~= levels_of(data.drop_last(), k));
        } else {
            assert(levels_of(data, k) =~= levels_of(data.drop_last(), k));
        }
    }
}

proof fn lemma_sighting_at(found: Seq<Sighting>, raw: Seq<u8>, i: int)
    requires
        0 <= i <= found.len(),
    ensures
        ({
            let p = stream_decoder::sighting_at(found, raw, i);
            &&& i <= p <= found.len()
            &&& p < found.len() ==> found[p].raw == raw
            &&& forall|j: int| i <= j < p ==> (#[trigger] found[j]).raw != raw
        }),
    decreases found.len() - i,
{
    if i < found.len() && found[i].raw != raw {
        lemma_sighting_at(found, raw, i + 1);
    }
}

proof fn lemma_mask_bit(mask: u16, k: int, other: int)
    requires
        0 <= k < 16,
        0 <= other < 16,
    ensures
        stream_decoder::in_mask(mask | (1u16 << (k as u16)), k),
        stream_decoder::in_mask(1u16 << (k as u16), k),
        stream_decoder::in_mask(mask, other) ==> stream_decoder::in_mask(
            mask | (1u16 << (k as u16)),
            other,
        ),
        k != other ==> !stream_decoder::in_mask(1u16 << (k as u16), other),
{
    let s = k as u16;
    let t = other as u16;
    assert({
        &&& ((mask | (1u16 << s)) >> s) & 1u16 == 1u16
        &&& ((1u16 << s) >> s) & 1u16 == 1u16
        &&& (mask >> t) & 1u16 == 1u16 ==> ((mask | (1u16 << s)) >> t) & 1u16 == 1u16
        &&& s != t ==> ((1u16 << s) >> t) & 1u16 != 1u16
    }) by (bit_vector)
        requires
            s < 16,
            t < 16,
    ;
}

proof fn lemma_sighted_sound(found: Seq<Sighting>, raw: Seq<u8>, k: int, slicers: int)
    requires
        sound(found, slicers),
        0 <= k < slicers <= 16,
        frame::parsed(raw) is Some,
    ensures
        sound(stream_decoder::sighted(found, raw, k), slicers),
{
    let after = stream_decoder::sighted(found, raw, k);
    let p = stream_decoder::sighting_at(found, raw, 0);
    lemma_sighting_at(found, raw, 0);
    assert forall|i: int| 0 <= i < after.len() implies frame::parsed((#[trigger] after[i]).raw)
        is Some && exists|m: int|
        0 <= m < slicers && #[trigger] stream_decoder::in_mask(after[i].mask, m) by {
        if i == p {
            let was = if p < found.len() {
                found[p].mask
            } else {
                0u16
            };
            lemma_mask_bit(was, k, k);
            assert(stream_decoder::in_mask(after[i].mask, k));
        } else {
            let m = choose|m: int|
                0 <= m < slicers && #[trigger] stream_decoder::in_mask(found[i].mask, m);
            assert(stream_decoder::in_mask(after[i].mask, m));
        }
    }
    assert forall|i: int, j: int| 0 <= i < j < after.len() implies (#[trigger] after[i]).raw != (
    #[trigger] after[j]).raw by {
        if p < found.len() {
            assert(found[i].raw != found[j].raw);
        }
    }
}

proof fn lemma_run_sound(pass: Pass, data: Seq<DemodBit>, fix_bits: FixBits)
    requires
        sound(pass.found, pass.links.len() as int),
        pass.links.len() <= 16,
    ensures
        pass.run(data, fix_bits).links.len() == pass.links.len(),
        sound(pass.run(data, fix_bits).found, pass.links.len() as int),
    decreases data.len(),
{
    if data.len() > 0 {
        let b = data.last();
        let before = pass.run(data.drop_last(), fix_bits);
        lemma_run_sound(pass, data.drop_last(), fix_bits);
        let k = b.slice as int;
        if k < before.links.len() {
            match stream_decoder::frame_heard(before.links[k], b.bit, fix_bits) {
                Some(raw) => {
                    lemma_sighted_sound(before.found, raw, k, pass.links.len() as int);
                },
                None => {},
            }
        }
    }
}

/// Within a block no frame is sighted twice, and every sighting is a frame that parses,
/// decoded by at least one of the channel's slicers.
pub proof fn law_sightings_sound(s: StreamView, data: Seq<DemodBit>)
    requires
        s.links.len() <= 16,
    ensures
        sound(s.sightings(data), s.links.len() as int),
{
    lemma_run_sound(Pass { links: s.links, found: Seq::empty() }, data, s.fix_bits);
}

proof fn lemma_filter_elements<A>(all: Seq<A>, keep: spec_fn(A) -> bool)
    ensures
        forall|i: int| 0 <= i < all.filter(keep).len() ==> keep(#[trigger] all.filter(keep)[i])
            && all.contains(all.filter(keep)[i]),
        forall|x: A| all.contains(x) && #[trigger] keep(x) ==> all.filter(keep).contains(x),
    decreases all.len(),
{
    reveal(Seq::filter);
    if all.len() > 0 {
        let head = all.drop_last();
        lemma_filter_elements(head, keep);
        let kept = head.filter(keep);
        let result = all.filter(keep);
        assert forall|i: int| 0 <= i < result.len() implies keep(#[trigger] result[i])
            && all.contains(result[i]) by {
            if i < kept.len() {
                assert(keep(kept[i]) && head.contains(kept[i]));
                let j = choose|j: int| 0 <= j < head.len() && head[j] == kept[i];
                assert(all[j] == kept[i]);
            } else {
                assert(all[all.len() - 1] == result[i]);
            }
        }
        assert forall|x: A| all.contains(x) && #[trigger] keep(x) implies result.contains(x) by {
            let j = choose|j: int| 0 <= j < all.len() && all[j] == x;
            if j < head.len() {
                assert(head[j] == x);
                assert(kept.contains(x));
                let m = choose|m: int| 0 <= m < kept.len() && kept[m] == x;
                assert(result[m] == x);
            } else {
                assert(result[kept.len() as int] == x);
            }
        }
    }
}

/// Dropping old emissions lists no frame twice.
pub(crate) proof fn lemma_recent_listed_once(emitted: Seq<Emitted>, now: u64)
    requires
        stream_decoder::listed_once(emitted),
    ensures
        stream_decoder::listed_once(stream_decoder::recent(emitted, now)),
    decreases emitted.len(),
{
    let keep = |e: Emitted|
        stream_decoder::elapsed(now, e.at) < stream_decoder::DEDUP_WINDOW;
    reveal(Seq::filter);
    if emitted.len() > 0 {
        let head = emitted.drop_last();
        lemma_recent_listed_once(head, now);
        lemma_filter_elements(head, keep);
        let kept = head.filter(keep);
        assert(stream_decoder::recent(head, now) == kept);
        assert forall|i: int| 0 <= i < kept.len() implies (#[trigger] kept[i]).raw
            != emitted.last().raw by {
            assert(head.contains(kept[i]));
            let j = choose|j: int| 0 <= j < head.len() && head[j] == kept[i];
            assert(emitted[j].raw != emitted[emitted.len() - 1].raw);
        }
    }
}

proof fn lemma_unseen_once(found: Seq<Sighting>, fresh: Seq<Emitted>)
    requires
        forall|i: int, j: int|
            0 <= i < j < found.len() ==> (#[trigger] found[i]).raw != (#[trigger] found[j]).raw,
    ensures
        forall|i: int, j: int|
            0 <= i < j < stream_decoder::unseen(found, fresh).len() ==> (
            #[trigger] stream_decoder::unseen(found, fresh)[i]).raw != (
            #[trigger] stream_decoder::unseen(found, fresh)[j]).raw,
    decreases found.len(),
{
    let new = |x: Sighting| !stream_decoder::among(fresh, x.raw);
    reveal(Seq::filter);
    if found.len() > 0 {
        let head = found.drop_last();
        lemma_unseen_once(head, fresh);
        lemma_filter_elements(head, new);
        let kept = head.filter(new);
        assert(stream_decoder::unseen(head, fresh) == kept);
        assert forall|i: int| 0 <= i < kept.len() implies (#[trigger] kept[i]).raw
            != found.last().raw by {
            assert(head.contains(kept[i]));
            let j = choose|j: int| 0 <= j < head.len() && head[j] == kept[i];
            assert(found[j].raw != found[found.len() - 1].raw);
        }
    }
}

/// The record of recent emissions never lists a frame twice.
pub proof fn law_listed_once(s: StreamView, data: Seq<DemodBit>, now: u64)
    requires
        stream_decoder::listed_once(s.emitted),
        s.links.len() <= 16,
    ensures
        stream_decoder::listed_once(s.after(data, now).emitted),
{
    let fresh = stream_decoder::recent(s.emitted, now);
    let found = s.sightings(data);
    let new = |x: Sighting| !stream_decoder::among(fresh, x.raw);
    lemma_recent_listed_once(s.emitted, now);
    law_sightings_sound(s, data);
    lemma_unseen_once(found, fresh);
    lemma_filter_elements(found, new);
    let news = s.news(data, now);
    let after = s.after(data, now).emitted;
    assert forall|i: int, j: int| 0 <= i < j < after.len() implies (#[trigger] after[i]).raw != (
    #[trigger] after[j]).raw by {
        let n = fresh.len();
        if j >= n {
            assert(after[j].raw == news[j - n].raw);
            if i < n {
                assert(new(news[j - n]));
                assert(fresh[i].raw != news[j - n].raw);
            } else {
                assert(after[i].raw == news[i - n].raw);
            }
        } else {
            assert(after[i] == fresh[i] && after[j] == fresh[j]);
        }
    }
}

/// A frame that was emitted less than the window ago is not emitted again, whatever
/// the block brings.
pub proof fn law_recent_frame_suppressed(
    s: StreamView,
    data: Seq<DemodBit>,
    block: BlockInfo,
    e: Emitted,
)
    requires
        s.emitted.contains(e),
        stream_decoder::elapsed(block.now, e.at) < stream_decoder::DEDUP_WINDOW,
    ensures
        forall|i: int|
            0 <= i < s.packets(data, block).len() ==> (#[trigger] s.packets(
                data,
                block,
            )[i]).raw_ax25 != e.raw,
{
    let fresh = stream_decoder::recent(s.emitted, block.now);
    lemma_filter_elements(s.emitted, |x: Emitted|
        stream_decoder::elapsed(block.now, x.at) < stream_decoder::DEDUP_WINDOW);
    assert(fresh.contains(e));
    let m = choose|m: int| 0 <= m < fresh.len() && fresh[m] == e;
    assert(stream_decoder::among(fresh, e.raw)) by {
        assert(fresh[m].raw == e.raw);
    }
    let new = |x: Sighting| !stream_decoder::among(fresh, x.raw);
    lemma_filter_elements(s.sightings(data), new);
    assert forall|i: int| 0 <= i < s.packets(data, block).len() implies (#[trigger] s.packets(
        data,
        block,
    )[i]).raw_ax25 != e.raw by {
        let n = s.news(data, block.now)[i];
        assert(new(n));
    }
}

/// A frame that a block brings, and that was not emitted within the window, is emitted.
pub proof fn law_new_frame_emitted(
    s: StreamView,
    data: Seq<DemodBit>,
    block: BlockInfo,
    found: Sighting,
)
    requires
        s.sightings(data).contains(found),
        forall|i: int|
            0 <= i < s.emitted.len() && (#[trigger] s.emitted[i]).raw == found.raw
                ==> stream_decoder::elapsed(block.now, s.emitted[i].at)
                >= stream_decoder::DEDUP_WINDOW,
    ensures
        s.packets(data, block).contains(stream_decoder::packet_for(s.ssrc, found, block)),
        s.after(data, block.now).emitted.contains(Emitted { raw: found.raw, at: block.now }),
{
    let fresh = stream_decoder::recent(s.emitted, block.now);
    lemma_filter_elements(s.emitted, |x: Emitted|
        stream_decoder::elapsed(block.now, x.at) < stream_decoder::DEDUP_WINDOW);
    let new = |x: Sighting| !stream_decoder::among(fresh, x.raw);
    assert(new(found)) by {
        if stream_decoder::among(fresh, found.raw) {
            let i = choose|i: int| 0 <= i < fresh.len() && (#[trigger] fresh[i]).raw == found.raw;
            assert(s.emitted.contains(fresh[i]));
            let j = choose|j: int| 0 <= j < s.emitted.len() && s.emitted[j] == fresh[i];
            assert(s.emitted[j].raw == found.raw);
        }
    }
    lemma_filter_elements(s.sightings(data), new);
    let news = s.news(data, block.now);
    assert(news.contains(found));
    let m = choose|m: int| 0 <= m < news.len() && news[m] == found;
    assert(s.packets(data, block)[m] == stream_decoder::packet_for(s.ssrc, found, block));
    let after = s.after(data, block.now).emitted;
    assert(after[fresh.len() + m] == Emitted { raw: found.raw, at: block.now });
}

/// State after a run of blocks, each given by its bits and the clock.
pub open spec fn after_blocks(s: StreamView, blocks: Seq<(Seq<DemodBit>, u64)>) -> StreamView
    decreases blocks.len(),
{
    if blocks.len() == 0 {
        s
    } else {
        after_blocks(s, blocks.drop_last()).after(blocks.last().0, blocks.last().1)
    }
}

/// An emission stays on record through any run of blocks for as long as it is younger
/// than the window.
pub proof fn law_emission_stays_listed(
    s: StreamView,
    blocks: Seq<(Seq<DemodBit>, u64)>,
    e: Emitted,
)
    requires
        s.emitted.contains(e),
        forall|i: int|
            0 <= i < blocks.len() ==> stream_decoder::elapsed((#[trigger] blocks[i]).1, e.at)
                < stream_decoder::DEDUP_WINDOW,
    ensures
        after_blocks(s, blocks).emitted.contains(e),
    decreases blocks.len(),
{
    if blocks.len() > 0 {
        let head = blocks.drop_last();
        let (data, now) = blocks.last();
        assert forall|i: int| 0 <= i < head.len() implies stream_decoder::elapsed(
            (#[trigger] head[i]).1,
            e.at,
        ) < stream_decoder::DEDUP_WINDOW by {
            assert(head[i] == blocks[i]);
        }
        law_emission_stays_listed(s, head, e);
        let before = after_blocks(s, head);
        let keep = |x: Emitted|
            stream_decoder::elapsed(now, x.at) < stream_decoder::DEDUP_WINDOW;
        lemma_filter_elements(before.emitted, keep);
        assert(blocks[blocks.len() - 1].1 == now);
        assert(keep(e));
        let fresh = stream_decoder::recent(before.emitted, now);
        assert(fresh.contains(e));
        let m = choose|m: int| 0 <= m < fresh.len() && fresh[m] == e;
        assert(before.after(data, now).emitted[m] == e);
    }
}

/// What one block emits, no later block emits again while the window lasts, whatever
/// blocks come in between.
pub proof fn law_no_repeat_in_window(
    s: StreamView,
    first: Seq<DemodBit>,
    at: BlockInfo,
    between: Seq<(Seq<DemodBit>, u64)>,
    later: Seq<DemodBit>,
    then_at: BlockInfo,
)
    requires
        forall|i: int| 0 <= i < between.len() ==> (#[trigger] between[i]).1 <= then_at.now,
        stream_decoder::elapsed(then_at.now, at.now) < stream_decoder::DEDUP_WINDOW,
    ensures
        ({
            let before = s.packets(first, at);
            let again = after_blocks(s.after(first, at.now), between).packets(later, then_at);
            forall|i: int, j: int|
                0 <= i < before.len() && 0 <= j < again.len() ==> (#[trigger] before[i]).raw_ax25
                    != (#[trigger] again[j]).raw_ax25
        }),
{
    let next = s.after(first, at.now);
    let last = after_blocks(next, between);
    let fresh = stream_decoder::recent(s.emitted, at.now);
    let before = s.packets(first, at);
    let again = last.packets(later, then_at);
    assert forall|i: int, j: int|
        0 <= i < before.len() && 0 <= j < again.len() implies (#[trigger] before[i]).raw_ax25 != (
    #[trigger] again[j]).raw_ax25 by {
        let n = s.news(first, at.now)[i];
        let e = Emitted { raw: n.raw, at: at.now };
        assert(next.emitted[fresh.len() + i] == e);
        law_emission_stays_listed(next, between, e);
        law_recent_frame_suppressed(last, later, then_at, e);
    }
}

/// A valid UI frame sent to one slicer behind a flag is decoded: the channel sights
/// exactly that frame, with exactly that slicer, in every recovery mode.
pub proof fn law_sent_frame_sighted(s: StreamView, ui: UiFrame, slice: usize)
    requires
        ui.valid(),
        ui.bytes().len() + 2 <= framer::MAX_FRAME_LEN,
        slice < s.links.len() <= 16,
        s.links[slice as int].window == framer::flag_bits(),
        s.links[slice as int].bits == Some(Seq::<bool>::empty()),
    ensures
        ({
            let line = line_code::levels(
                s.links[slice as int].level,
                line_code::frame_tail(fec::with_fcs(ui.bytes())),
            );
            s.sightings(on_slicer(line, slice)) == seq![
                Sighting { raw: ui.bytes(), mask: 1u16 << (slice as u16) },
            ]
        }),
{
    let k = slice as int;
    let link = s.links[k];
    let sent = fec::with_fcs(ui.bytes());
    let line = line_code::levels(link.level, line_code::frame_tail(sent));
    let data = on_slicer(line, slice);
    let pass = Pass { links: s.links, found: Seq::empty() };
    line_code::law_frame_after_flag(link, sent);
    crate::ax25::wire::law_frame_round_trip(ui);
    recovery::law_clean_frame_validates(ui.bytes(), s.fix_bits);
    bits::lemma_bytes_of(sent);
    lemma_ui_len(ui);
    let n = line.len() as int;
    lemma_silent_run(s, line, slice, n - 1);
    assert(data.take(n - 1) =~= data.drop_last());
    assert(line.take(n - 1) =~= line.drop_last());
    let before = pass.run(data.drop_last(), s.fix_bits);
    assert(stream_decoder::frame_heard(before.links[k], line.last(), s.fix_bits) == Some(
        ui.bytes(),
    ));
    assert(pass.run(data, s.fix_bits).found =~= seq![
        Sighting { raw: ui.bytes(), mask: 1u16 << (slice as u16) },
    ]);
}

proof fn lemma_ui_len(ui: UiFrame)
    ensures
        ui.bytes().len() >= 16,
        fec::with_fcs(ui.bytes()).len() == ui.bytes().len() + 2,
{
}

/// While no level completes a frame, nothing is sighted.
proof fn lemma_silent_run(s: StreamView, line: Seq<bool>, slice: usize, n: int)
    requires
        0 <= n <= line.len(),
        slice < s.links.len(),
        forall|i: int|
            0 <= i < n ==> (#[trigger] line_code::feed(
                s.links[slice as int],
                line.take(i),
            )).completes(line[i]) is None,
    ensures
        ({
            let pass = Pass { links: s.links, found: Seq::empty() };
            let after = pass.run(on_slicer(line, slice).take(n), s.fix_bits);
            &&& after.links.len() == s.links.len()
            &&& after.links[slice as int] == line_code::feed(
                s.links[slice as int],
                line.take(n),
            )
            &&& after.found == Seq::<Sighting>::empty()
        }),
    decreases n,
{
    let data = on_slicer(line, slice);
    if n > 0 {
        lemma_silent_run(s, line, slice, n - 1);
        assert(data.take(n).drop_last() =~= data.take(n - 1));
        assert(line.take(n).drop_last() =~= line.take(n - 1));
        assert(line_code::feed(s.links[slice as int], line.take(n - 1)).completes(line[n - 1])
            is None);
    }
}

/// End to end: a valid UI frame sent to one slicer behind a flag, and not emitted within
/// the window before, comes out as one packet that says what was sent.
pub proof fn law_sent_frame_delivered(s: StreamView, ui: UiFrame, slice: usize, block: BlockInfo)
    requires
        ui.valid(),
        ui.bytes().len() + 2 <= framer::MAX_FRAME_LEN,
        slice < s.links.len() <= 16,
        s.links[slice as int].window == framer::flag_bits(),
        s.links[slice as int].bits == Some(Seq::<bool>::empty()),
        forall|i: int|
            0 <= i < s.emitted.len() && (#[trigger] s.emitted[i]).raw == ui.bytes()
                ==> stream_decoder::elapsed(block.now, s.emitted[i].at)
                >= stream_decoder::DEDUP_WINDOW,
    ensures
        ({
            let line = line_code::levels(
                s.links[slice as int].level,
                line_code::frame_tail(fec::with_fcs(ui.bytes())),
            );
            let packets = s.packets(on_slicer(line, slice), block);
            &&& packets.len() == 1
            &&& packets[0].raw_ax25 == ui.bytes()
            &&& packets[0].frame == ui.content()
            &&& packets[0].ssrc == s.ssrc
            &&& packets[0].first_slice == slice
            &&& packets[0].slicer_hits == 1
        }),
{
    let line = line_code::levels(
        s.links[slice as int].level,
        line_code::frame_tail(fec::with_fcs(ui.bytes())),
    );
    let data = on_slicer(line, slice);
    let found = Sighting { raw: ui.bytes(), mask: 1u16 << (slice as u16) };
    law_sent_frame_sighted(s, ui, slice);
    crate::ax25::wire::law_frame_round_trip(ui);
    assert(s.sightings(data)[0] == found);
    law_new_frame_emitted(s, data, block, found);
    let fresh = stream_decoder::recent(s.emitted, block.now);
    let new = |x: Sighting| !stream_decoder::among(fresh, x.raw);
    assert(s.news(data, block.now).len() <= 1) by {
        reveal(Seq::filter);
        assert(seq![found].drop_last() =~= Seq::<Sighting>::empty());
        reveal_with_fuel(Seq::filter, 2);
    }
    let p = stream_decoder::packet_for(s.ssrc, found, block);
    assert(s.packets(data, block).contains(p));
    assert(s.packets(data, block)[0] == p);
    lemma_single_mask(slice as int);
}

/// A UI frame that arrives with one bit wrong is still heard, unless recovery is off;
/// then it is dropped.
pub proof fn law_damaged_frame_heard(link: framer::LinkState, level: bool, ui: UiFrame, k: int)
    requires
        ui.valid(),
        ui.bytes().len() + 2 <= framer::MAX_FRAME_LEN,
        0 <= k < 8 * (ui.bytes().len() + 2),
        link.completes(level) == Some(
            bits::bytes_bits(fec::flip(fec::with_fcs(ui.bytes()), k)),
        ),
    ensures
        stream_decoder::frame_heard(link, level, FixBits::Off) is None,
        stream_decoder::frame_heard(link, level, FixBits::Single) == Some(ui.bytes()),
        stream_decoder::frame_heard(link, level, FixBits::Double) == Some(ui.bytes()),
{
    let sent = fec::with_fcs(ui.bytes());
    assert(fec::payload_of(sent) =~= ui.bytes());
    bits::lemma_bytes_of(fec::flip(sent, k));
    recovery::law_single_error_recovered(sent, k);
    crate::ax25::wire::law_frame_round_trip(ui);
}

/// A UI frame that arrives with two neighbouring bits wrong is still heard if recovery
/// covers pairs; otherwise it is dropped.
pub proof fn law_doubly_damaged_frame_heard(
    link: framer::LinkState,
    level: bool,
    ui: UiFrame,
    k: int,
)
    requires
        ui.valid(),
        ui.bytes().len() + 2 <= framer::MAX_FRAME_LEN,
        0 <= k < 8 * (ui.bytes().len() + 2) - 1,
        link.completes(level) == Some(
            bits::bytes_bits(fec::flip_pair(fec::with_fcs(ui.bytes()), k)),
        ),
    ensures
        stream_decoder::frame_heard(link, level, FixBits::Off) is None,
        stream_decoder::frame_heard(link, level, FixBits::Single) is None,
        stream_decoder::frame_heard(link, level, FixBits::Double) == Some(ui.bytes()),
{
    let sent = fec::with_fcs(ui.bytes());
    assert(fec::payload_of(sent) =~= ui.bytes());
    bits::lemma_bytes_of(fec::flip_pair(sent, k));
    recovery::law_pair_error_recovered(sent, k);
    crate::ax25::wire::law_frame_round_trip(ui);
}

proof fn lemma_single_mask(k: int)
    requires
        0 <= k < 16,
    ensures
        stream_decoder::mask_first(1u16 << (k as u16), 0) == k,
        stream_decoder::mask_count(1u16 << (k as u16), 16) == 1,
{
    lemma_single_first(k, 0);
    lemma_single_count(k, 16);
}

proof fn lemma_single_first(k: int, i: int)
    requires
        0 <= i <= k < 16,
    ensures
        stream_decoder::mask_first(1u16 << (k as u16), i) == k,
    decreases k - i,
{
    lemma_mask_bit(0, k, i);
    if i < k {
        lemma_single_first(k, i + 1);
    }
}

proof fn lemma_single_count(k: int, n: int)
    requires
        0 <= k < 16,
        0 <= n <= 16,
    ensures
        stream_decoder::mask_count(1u16 << (k as u16), n) == if n > k {
            1int
        } else {
            0
        },
    decreases n,
{
    if n > 0 {
        lemma_mask_bit(0, k, n - 1);
        lemma_single_count(k, n - 1);
    }
}

/// Slicer `k` hears the frame `raw` with bit `t` of a block: the bit is its own, and with the
/// levels it received before the bit completes the frame.
pub open spec fn hears_at(
    links: Seq<framer::LinkState>,
    data: Seq<DemodBit>,
    fix_bits: FixBits,
    raw: Seq<u8>,
    k: int,
    t: int,
) -> bool {
    &&& 0 <= t < data.len()
    &&& 0 <= k < links.len()
    &&& data[t].slice == k
    &&& stream_decoder::frame_heard(
        line_code::feed(links[k], levels_of(data.take(t), k)),
        data[t].bit,
        fix_bits,
    ) == Some(raw)
}

/// Slicer `k` hears the frame `raw` somewhere in a block.
pub open spec fn hears(
    links: Seq<framer::LinkState>,
    data: Seq<DemodBit>,
    fix_bits: FixBits,
    raw: Seq<u8>,
    k: int,
) -> bool {
    exists|t: int| #[trigger] hears_at(links, data, fix_bits, raw, k, t)
}

/// One more bit adds to what a slicer hears the frame that the bit completes.
proof fn lemma_hears_step(
    links: Seq<framer::LinkState>,
    data: Seq<DemodBit>,
    fix_bits: FixBits,
    raw: Seq<u8>,
    k: int,
)
    requires
        data.len() > 0,
    ensures
        hears(links, data, fix_bits, raw, k) == (hears(
            links,
            data.drop_last(),
            fix_bits,
            raw,
            k,
        ) || hears_at(links, data, fix_bits, raw, k, data.len() - 1)),
{
    let head = data.drop_last();
    assert forall|t: int| 0 <= t < head.len() implies hears_at(links, head, fix_bits, raw, k, t)
        == hears_at(links, data, fix_bits, raw, k, t) by {
        assert(head.take(t) =~= data.take(t));
        assert(head[t] == data[t]);
    }
    if hears(links, data, fix_bits, raw, k) {
        let t = choose|t: int| #[trigger] hears_at(links, data, fix_bits, raw, k, t);
        if t < head.len() {
            assert(hears_at(links, head, fix_bits, raw, k, t));
        }
    }
    if hears(links, head, fix_bits, raw, k) {
        let t = choose|t: int| #[trigger] hears_at(links, head, fix_bits, raw, k, t);
        assert(hears_at(links, data, fix_bits, raw, k, t));
    }
}

proof fn lemma_run_hears(
    links: Seq<framer::LinkState>,
    data: Seq<DemodBit>,
    fix_bits: FixBits,
    raw: Seq<u8>,
    k: int,
)
    requires
        links.len() <= 16,
        0 <= k < 16,
    ensures
        ({
            let found = Pass { links, found: Seq::empty() }.run(data, fix_bits).found;
            let p = stream_decoder::sighting_at(found, raw, 0);
            &&& p < found.len() ==> stream_decoder::in_mask(found[p].mask, k) == hears(
                links,
                data,
                fix_bits,
                raw,
                k,
            )
            &&& p >= found.len() ==> !hears(links, data, fix_bits, raw, k)
        }),
    decreases data.len(),
{
    let pass = Pass { links, found: Seq::empty() };
    if data.len() == 0 {
        assert forall|t: int| !#[trigger] hears_at(links, data, fix_bits, raw, k, t) by {}
    } else {
        let head = data.drop_last();
        let b = data.last();
        let before = pass.run(head, fix_bits);
        let j = b.slice as int;
        lemma_run_hears(links, head, fix_bits, raw, k);
        lemma_hears_step(links, data, fix_bits, raw, k);
        assert(data.take(data.len() - 1) =~= head);
        lemma_sighting_at(before.found, raw, 0);
        let found = pass.run(data, fix_bits).found;
        lemma_sighting_at(found, raw, 0);
        if j < links.len() {
            law_slicers_independent(pass, head, fix_bits, j);
            let heard = stream_decoder::frame_heard(before.links[j], b.bit, fix_bits);
            assert(hears_at(links, data, fix_bits, raw, k, data.len() - 1) == (k == j && heard
                == Some(raw)));
            match heard {
                Some(got) => {
                    lemma_sighting_at(before.found, got, 0);
                    let g = stream_decoder::sighting_at(before.found, got, 0);
                    let p = stream_decoder::sighting_at(before.found, raw, 0);
                    if got == raw {
                        let was = if g < before.found.len() {
                            before.found[g].mask
                        } else {
                            0u16
                        };
                        lemma_or_bit(was, j, k);
                        assert(found[g].raw == raw);
                        lemma_first_sighting(found, raw, g);
                    } else if p < before.found.len() {
                        assert(found[p] == before.found[p]);
                        assert forall|i: int| 0 <= i < p implies (#[trigger] found[i]).raw
                            != raw by {
                            assert(before.found[i].raw != raw);
                        }
                        lemma_first_sighting(found, raw, p);
                    } else {
                        assert forall|i: int| 0 <= i < found.len() implies (
                        #[trigger] found[i]).raw != raw by {
                            if i < before.found.len() {
                                assert(before.found[i].raw != raw);
                            }
                        }
                    }
                },
                None => {},
            }
        } else {
            lemma_slicers_len(pass, head, fix_bits);
            assert(!hears_at(links, data, fix_bits, raw, k, data.len() - 1));
        }
    }
}

proof fn lemma_slicers_len(pass: Pass, data: Seq<DemodBit>, fix_bits: FixBits)
    ensures
        pass.run(data, fix_bits).links.len() == pass.links.len(),
    decreases data.len(),
{
    if data.len() > 0 {
        lemma_slicers_len(pass, data.drop_last(), fix_bits);
    }
}

proof fn lemma_first_sighting(found: Seq<Sighting>, raw: Seq<u8>, p: int)
    requires
        0 <= p < found.len(),
        found[p].raw == raw,
        forall|i: int| 0 <= i < p ==> (#[trigger] found[i]).raw != raw,
    ensures
        stream_decoder::sighting_at(found, raw, 0) == p,
{
    lemma_sighting_at(found, raw, 0);
    let q = stream_decoder::sighting_at(found, raw, 0);
    if q < p {
        assert(found[q].raw == raw);
    }
}

/// Setting bit `j` of a mask sets it and no other.
proof fn lemma_or_bit(mask: u16, j: int, k: int)
    requires
        0 <= j < 16,
        0 <= k < 16,
    ensures
        stream_decoder::in_mask(mask | (1u16 << (j as u16)), k) == (j == k
            || stream_decoder::in_mask(mask, k)),
        stream_decoder::in_mask(1u16 << (j as u16), k) == (j == k),
        !stream_decoder::in_mask(0u16, k),
{
    let s = j as u16;
    let t = k as u16;
    assert({
        &&& (((mask | (1u16 << s)) >> t) & 1u16 == 1u16) == (s == t || (mask >> t) & 1u16 == 1u16)
        &&& (((1u16 << s) >> t) & 1u16 == 1u16) == (s == t)
        &&& (0u16 >> t) & 1u16 != 1u16
        &&& (0u16 | (1u16 << s)) == (1u16 << s)
    }) by (bit_vector)
        requires
            s < 16,
            t < 16,
    ;
}

/// A block sights exactly the frames that some slicer hears in it, each once, and a slicer is
/// in the mask of a sighting exactly if it heard that frame itself.
pub proof fn law_mask_names_who_heard(s: StreamView, data: Seq<DemodBit>, raw: Seq<u8>)
    requires
        s.links.len() <= 16,
    ensures
        ({
            let found = s.sightings(data);
            &&& (exists|i: int| 0 <= i < found.len() && (#[trigger] found[i]).raw == raw) <==> (
            exists|k: int| #[trigger] hears(s.links, data, s.fix_bits, raw, k))
            &&& forall|i: int, k: int|
                #![trigger found[i], hears(s.links, data, s.fix_bits, raw, k)]
                0 <= i < found.len() && found[i].raw == raw && 0 <= k < 16 ==> ((found[i].mask >> (
                k as u16)) & 1u16 == 1u16) == hears(s.links, data, s.fix_bits, raw, k)
            &&& forall|i: int, j: int|
                0 <= i < j < found.len() ==> (#[trigger] found[i]).raw != (#[trigger] found[j]).raw
        }),
{
    let found = s.sightings(data);
    law_sightings_sound(s, data);
    let p = stream_decoder::sighting_at(found, raw, 0);
    lemma_sighting_at(found, raw, 0);
    assert forall|k: int| 0 <= k < 16 implies p < found.len() && stream_decoder::in_mask(
        found[p].mask,
        k,
    ) == #[trigger] hears(s.links, data, s.fix_bits, raw, k) || p >= found.len() && !hears(
        s.links,
        data,
        s.fix_bits,
        raw,
        k,
    ) by {
        lemma_run_hears(s.links, data, s.fix_bits, raw, k);
    }
    assert forall|k: int| #[trigger] hears(s.links, data, s.fix_bits, raw, k) implies 0 <= k < 16
        && p < found.len() by {
        let t = choose|t: int| #[trigger] hears_at(s.links, data, s.fix_bits, raw, k, t);
        assert(0 <= k < s.links.len());
    }
    assert forall|i: int, k: int|
        #![trigger found[i], hears(s.links, data, s.fix_bits, raw, k)]
        0 <= i < found.len() && found[i].raw == raw && 0 <= k < 16 implies ((found[i].mask >> (
    k as u16)) & 1u16 == 1u16) == hears(s.links, data, s.fix_bits, raw, k) by {
        if i < p {
            assert(found[i].raw != raw);
        } else if p < i {
            assert(found[p].raw != found[i].raw);
        }
    }
    if p < found.len() {
        let m = choose|m: int|
            0 <= m < s.links.len() && #[trigger] stream_decoder::in_mask(found[p].mask, m);
        assert(hears(s.links, data, s.fix_bits, raw, m));
    }
}

/// The slicers in a mask.
pub open spec fn members(mask: u16) -> Set<int> {
    vstd::set_lib::set_int_range(0, 16).filter(|k: int| (mask >> (k as u16)) & 1u16 == 1u16)
}

/// A mask counts as many slicers as it names, and the first is the lowest of them.
pub proof fn law_mask_counted(mask: u16)
    ensures
        members(mask).finite(),
        stream_decoder::mask_count(mask, 16) == members(mask).len(),
        forall|k: int|
            0 <= k < stream_decoder::mask_first(mask, 0) && k < 16 ==> !#[trigger] members(
                mask,
            ).contains(k),
        stream_decoder::mask_first(mask, 0) < 16 ==> members(mask).contains(
            stream_decoder::mask_first(mask, 0),
        ),
        0 <= stream_decoder::mask_first(mask, 0) <= 16,
{
    lemma_count_below(mask, 16);
    assert(below(mask, 16) =~= members(mask));
    lemma_first_from(mask, 0);
    assert forall|k: int|
        0 <= k < stream_decoder::mask_first(mask, 0) && k < 16 implies !#[trigger] members(
        mask,
    ).contains(k) by {
        assert(!stream_decoder::in_mask(mask, k));
    }
}

spec fn below(mask: u16, n: int) -> Set<int> {
    vstd::set_lib::set_int_range(0, n).filter(|k: int| (mask >> (k as u16)) & 1u16 == 1u16)
}

proof fn lemma_count_below(mask: u16, n: int)
    requires
        0 <= n <= 16,
    ensures
        below(mask, n).finite(),
        stream_decoder::mask_count(mask, n) == below(mask, n).len(),
    decreases n,
{
    vstd::set_lib::lemma_int_range(0, n);
    if n == 0 {
        assert(below(mask, 0) =~= Set::<int>::empty());
    } else {
        lemma_count_below(mask, n - 1);
        if stream_decoder::in_mask(mask, n - 1) {
            assert(below(mask, n) =~= below(mask, n - 1).insert(n - 1));
        } else {
            assert(below(mask, n) =~= below(mask, n - 1));
        }
    }
}

proof fn lemma_first_from(mask: u16, i: int)
    requires
        0 <= i <= 16,
    ensures
        ({
            let f = stream_decoder::mask_first(mask, i);
            &&& i <= f <= 16
            &&& f < 16 ==> stream_decoder::in_mask(mask, f)
            &&& forall|k: int| i <= k < f ==> !#[trigger] stream_decoder::in_mask(mask, k)
        }),
    decreases 16 - i,
{
    if i < 16 && !stream_decoder::in_mask(mask, i) {
        lemma_first_from(mask, i + 1);
    }
}

/// A slicer hears a frame exactly if the bit closes a frame whose bytes hold a good check
/// sequence, or are repaired as the mode allows, and the payload parses.
pub proof fn law_heard_means_good(
    link: framer::LinkState,
    level: bool,
    fix_bits: FixBits,
    bytes: Seq<u8>,
)
    requires
        link.completes(level) == Some(bits::bytes_bits(bytes)),
    ensures
        stream_decoder::frame_heard(link, level, fix_bits) == match fec::validated(
            bytes,
            fix_bits,
        ) {
            Some(raw) => if frame::parsed(raw) is Some {
                Some(raw)
            } else {
                None
            },
            None => None,
        },
{
    bits::lemma_bytes_of(bytes);
}

/// Emissions count for three seconds: until then each stays on record, and no longer.
pub proof fn law_window_is_three_seconds(emitted: Seq<Emitted>, now: u64, e: Emitted)
    ensures
        stream_decoder::recent(emitted, now).contains(e) <==> emitted.contains(e) && now < e.at
            + 3_000_000_000,
{
    let keep = |x: Emitted| stream_decoder::elapsed(now, x.at) < stream_decoder::DEDUP_WINDOW;
    lemma_filter_elements(emitted, keep);
    let fresh = stream_decoder::recent(emitted, now);
    if fresh.contains(e) {
        let i = choose|i: int| 0 <= i < fresh.len() && fresh[i] == e;
        assert(keep(fresh[i]) && emitted.contains(fresh[i]));
    }
    if emitted.contains(e) && now < e.at + 3_000_000_000 {
        assert(keep(e));
    }
}

/// Every packet is one frame that the block sights, under the channel's identifier and with
/// what is known of the block. What it says is what its own bytes say, and its mask is that
/// of the slicers that heard the frame.
pub proof fn law_packet_tells_of_its_frame(
    s: StreamView,
    data: Seq<DemodBit>,
    block: BlockInfo,
    i: int,
)
    requires
        s.links.len() <= 16,
        0 <= i < s.packets(data, block).len(),
    ensures
        ({
            let p = s.packets(data, block)[i];
            &&& frame::parsed(p.raw_ax25) == Some(p.frame)
            &&& p.text == crate::aprs::text::tnc2(p.frame)
            &&& p.heard_direct == p.frame.heard_direct()
            &&& p.heard_from == p.frame.heard_from(p.frame.via_heard.len() as int)
            &&& p.dti == if p.frame.info.len() == 0 {
                None
            } else {
                Some(p.frame.info.first())
            }
            &&& p.info_invalid_bytes == crate::aprs::text::suspect(p.frame.info)
            &&& p.ssrc == s.ssrc
            &&& p.received_at == block.received_at
            &&& p.audio_level == block.audio_level
            &&& p.signal == block.signal
            &&& forall|k: int|
                0 <= k < 16 ==> ((p.slicer_mask >> (k as u16)) & 1u16 == 1u16) == #[trigger] hears(
                    s.links,
                    data,
                    s.fix_bits,
                    p.raw_ax25,
                    k,
                )
            &&& p.slicer_hits == members(p.slicer_mask).len()
            &&& members(p.slicer_mask).contains(p.first_slice)
            &&& forall|k: int| #[trigger]
                members(p.slicer_mask).contains(k) ==> p.first_slice <= k
        }),
{
    let found = s.sightings(data);
    let fresh = stream_decoder::recent(s.emitted, block.now);
    let new = |x: Sighting| !stream_decoder::among(fresh, x.raw);
    lemma_filter_elements(found, new);
    let news = s.news(data, block.now);
    let x = news[i];
    assert(found.contains(x));
    let j = choose|j: int| 0 <= j < found.len() && found[j] == x;
    law_sightings_sound(s, data);
    assert(frame::parsed(found[j].raw) is Some);
    law_mask_names_who_heard(s, data, x.raw);
    law_mask_counted(x.mask);
    let p = s.packets(data, block)[i];
    assert(p.slicer_mask == x.mask && p.raw_ax25 == x.raw);
    assert forall|k: int| 0 <= k < 16 implies ((p.slicer_mask >> (k as u16)) & 1u16 == 1u16)
        == #[trigger] hears(s.links, data, s.fix_bits, p.raw_ax25, k) by {
        assert(found[j].raw == x.raw);
    }
    let m = choose|m: int|
        0 <= m < s.links.len() && #[trigger] stream_decoder::in_mask(found[j].mask, m);
    assert(members(p.slicer_mask).contains(m));
}

/// Packets leave the state's identity alone: a block changes the framers of its slicers and
/// the record of emissions, nothing else. What is on record afterwards is what was still
/// recent and the frames of this block's packets, at its time.
pub proof fn law_what_a_block_changes(s: StreamView, data: Seq<DemodBit>, block: BlockInfo)
    ensures
        ({
            let r = s.after(data, block.now);
            let packets = s.packets(data, block);
            let kept = stream_decoder::recent(s.emitted, block.now);
            &&& r.ssrc == s.ssrc
            &&& r.fix_bits == s.fix_bits
            &&& r.links.len() == s.links.len()
            &&& forall|k: int|
                0 <= k < s.links.len() ==> #[trigger] r.links[k] == line_code::feed(
                    s.links[k],
                    levels_of(data, k),
                )
            &&& r.emitted.len() == kept.len() + packets.len()
            &&& r.emitted.take(kept.len() as int) == kept
            &&& forall|i: int|
                0 <= i < packets.len() ==> r.emitted[kept.len() + i].raw == (
                #[trigger] packets[i]).raw_ax25 && r.emitted[kept.len() + i].at == block.now
        }),
{
    let pass = Pass { links: s.links, found: Seq::empty() };
    let r = s.after(data, block.now);
    lemma_slicers_len(pass, data, s.fix_bits);
    assert forall|k: int| 0 <= k < s.links.len() implies #[trigger] r.links[k] == line_code::feed(
        s.links[k],
        levels_of(data, k),
    ) by {
        law_slicers_independent(pass, data, s.fix_bits, k);
    }
    let kept = stream_decoder::recent(s.emitted, block.now);
    assert(r.emitted.take(kept.len() as int) =~= kept);
}

/// Any frame that parses, sent to one slicer behind a flag, is sighted: exactly that frame,
/// with exactly that slicer, in every recovery mode.
pub proof fn law_any_sent_frame_sighted(s: StreamView, raw: Seq<u8>, slice: usize)
    requires
        frame::parsed(raw) is Some,
        raw.len() + 2 <= framer::MAX_FRAME_LEN,
        slice < s.links.len() <= 16,
        s.links[slice as int].window == framer::flag_bits(),
        s.links[slice as int].bits == Some(Seq::<bool>::empty()),
    ensures
        ({
            let line = line_code::levels(
                s.links[slice as int].level,
                line_code::frame_tail(fec::with_fcs(raw)),
            );
            s.sightings(on_slicer(line, slice)) == seq![
                Sighting { raw, mask: 1u16 << (slice as u16) },
            ]
        }),
{
    let k = slice as int;
    let link = s.links[k];
    let sent = fec::with_fcs(raw);
    let line = line_code::levels(link.level, line_code::frame_tail(sent));
    let data = on_slicer(line, slice);
    let pass = Pass { links: s.links, found: Seq::empty() };
    line_code::law_frame_after_flag(link, sent);
    recovery::law_clean_frame_validates(raw, s.fix_bits);
    bits::lemma_bytes_of(sent);
    frame::law_address_fields_counted(raw);
    let n = line.len() as int;
    lemma_silent_run(s, line, slice, n - 1);
    assert(data.take(n - 1) =~= data.drop_last());
    assert(line.take(n - 1) =~= line.drop_last());
    let before = pass.run(data.drop_last(), s.fix_bits);
    assert(stream_decoder::frame_heard(before.links[k], line.last(), s.fix_bits) == Some(raw));
    assert(pass.run(data, s.fix_bits).found =~= seq![
        Sighting { raw, mask: 1u16 << (slice as u16) },
    ]);
}

/// Frames are listed in the order in which they were first heard: what the first bits of a
/// block sight comes first, and further bits only add behind it.
pub proof fn law_order_of_first_hearing(s: StreamView, data: Seq<DemodBit>, t: int)
    requires
        0 <= t <= data.len(),
    ensures
        ({
            let early = s.sightings(data.take(t));
            let all = s.sightings(data);
            &&& early.len() <= all.len()
            &&& forall|i: int|
                0 <= i < early.len() ==> (#[trigger] early[i]).raw == all[i].raw
        }),
    decreases data.len() - t,
{
    if t == data.len() {
        assert(data.take(t) =~= data);
    } else {
        law_order_of_first_hearing(s, data, t + 1);
        let more = data.take(t + 1);
        assert(more.drop_last() =~= data.take(t));
        let pass = Pass { links: s.links, found: Seq::empty() };
        let before = pass.run(data.take(t), s.fix_bits);
        let b = more.last();
        let k = b.slice as int;
        if k < before.links.len() {
            match stream_decoder::frame_heard(before.links[k], b.bit, s.fix_bits) {
                Some(raw) => {
                    lemma_sighting_at(before.found, raw, 0);
                },
                None => {},
            }
        }
        let early = s.sightings(data.take(t));
        let next = s.sightings(more);
        assert forall|i: int| 0 <= i < early.len() implies (#[trigger] early[i]).raw
            == s.sightings(data)[i].raw by {
            assert(early[i].raw == next[i].raw);
        }
    }
}

/// Packets come in the order of the sightings that they are for.
pub proof fn law_packets_in_order(
    s: StreamView,
    data: Seq<DemodBit>,
    block: BlockInfo,
    i: int,
    j: int,
) -> (r: (int, int))
    requires
        0 <= i < j < s.packets(data, block).len(),
    ensures
        0 <= r.0 < r.1 < s.sightings(data).len(),
        s.sightings(data)[r.0].raw == s.packets(data, block)[i].raw_ax25,
        s.sightings(data)[r.1].raw == s.packets(data, block)[j].raw_ax25,
{
    let fresh = stream_decoder::recent(s.emitted, block.now);
    lemma_filter_order(
        s.sightings(data),
        |x: Sighting| !stream_decoder::among(fresh, x.raw),
        i,
        j,
    )
}

proof fn lemma_filter_order<A>(all: Seq<A>, keep: spec_fn(A) -> bool, i: int, j: int) -> (r: (
    int,
    int,
))
    requires
        0 <= i < j < all.filter(keep).len(),
    ensures
        0 <= r.0 < r.1 < all.len(),
        all[r.0] == all.filter(keep)[i],
        all[r.1] == all.filter(keep)[j],
    decreases all.len(),
{
    reveal(Seq::filter);
    let head = all.drop_last();
    let kept = head.filter(keep);
    if j < kept.len() {
        lemma_filter_order(head, keep, i, j)
    } else {
        lemma_filter_elements(head, keep);
        assert(head.contains(kept[i]));
        let p = choose|p: int| 0 <= p < head.len() && head[p] == kept[i];
        (p, all.len() - 1)
    }
}

} // verus!
