//! The sender's side of the link, and what the framer makes of it.

use vstd::prelude::*;

use crate::bits;
use crate::hdlc::framer;
use crate::hdlc::framer::LinkState;

verus! {

/// Ones at the end of the data that count towards the next stuffed zero.
pub open spec fn run(data: Seq<bool>) -> nat
    decreases data.len(),
{
    if data.len() == 0 || !data.last() {
        0
    } else {
        let r = run(data.drop_last()) + 1;
        if r == 5 {
            0
        } else {
            r
        }
    }
}

/// The data with a zero put in behind every five ones in a row.
pub open spec fn stuffed(data: Seq<bool>) -> Seq<bool>
    decreases data.len(),
{
    if data.len() == 0 {
        Seq::empty()
    } else {
        let s = stuffed(data.drop_last()).push(data.last());
        if data.last() && run(data.drop_last()) == 4 {
            s.push(false)
        } else {
            s
        }
    }
}

/// NRZI line levels of a bit sequence on a line that rests at `level`: a one keeps the
/// level, a zero changes it.
pub open spec fn levels(level: bool, data: Seq<bool>) -> Seq<bool>
    decreases data.len(),
{
    if data.len() == 0 {
        Seq::empty()
    } else {
        let before = levels(level, data.drop_last());
        let last = if before.len() == 0 {
            level
        } else {
            before.last()
        };
        before.push(data.last() == last)
    }
}

/// Body and closing flag of a frame, before line coding.
pub open spec fn frame_tail(payload: Seq<u8>) -> Seq<bool> {
    stuffed(bits::bytes_bits(payload)) + framer::flag_bits()
}

/// State after a sequence of line levels.
pub open spec fn feed(st: LinkState, raws: Seq<bool>) -> LinkState
    decreases raws.len(),
{
    if raws.len() == 0 {
        st
    } else {
        feed(st, raws.drop_last()).next(raws.last())
    }
}

/// The bits that the framer delivers for a payload: all of them, if the frame is
/// neither too short nor too long.
pub open spec fn delivered(payload: Seq<u8>) -> Option<Seq<bool>> {
    if framer::MIN_FRAME_LEN <= payload.len() <= framer::MAX_FRAME_LEN {
        Some(bits::bytes_bits(payload))
    } else {
        None
    }
}

/// The line level that means logical bit `d`.
spec fn level_for(st: LinkState, d: bool) -> bool {
    d == st.level
}

/// As `feed`, for logical bits.
spec fn feed_bits(st: LinkState, data: Seq<bool>) -> LinkState
    decreases data.len(),
{
    if data.len() == 0 {
        st
    } else {
        let s = feed_bits(st, data.drop_last());
        s.next(level_for(s, data.last()))
    }
}

/// No bit of `data` completes a frame.
spec fn silent(st: LinkState, data: Seq<bool>) -> bool {
    forall|i: int|
        0 <= i < data.len() ==> {
            let s = #[trigger] feed_bits(st, data.take(i));
            s.completes(level_for(s, data[i])) is None
        }
}

/// What a receiver in a frame holds after `data`.
spec fn collected(data: Seq<bool>) -> Option<Seq<bool>> {
    if data.len() < 8 * (framer::MAX_FRAME_LEN + 1) {
        Some(data)
    } else {
        None
    }
}

/// The window shows a zero and then exactly `r` ones.
spec fn trailing_ones(window: Seq<bool>, r: int) -> bool {
    &&& window.len() == 8
    &&& 0 <= r < 8
    &&& !window[7 - r]
    &&& forall|i: int| 7 - r < i < 8 ==> window[i]
}

proof fn lemma_levels(st: LinkState, data: Seq<bool>)
    ensures
        levels(st.level, data).len() == data.len(),
        feed(st, levels(st.level, data)) == feed_bits(st, data),
        data.len() > 0 ==> feed_bits(st, data).level == levels(st.level, data).last(),
    decreases data.len(),
{
    if data.len() > 0 {
        let before = levels(st.level, data.drop_last());
        lemma_levels(st, data.drop_last());
        assert(levels(st.level, data).drop_last() =~= before);
        let s = feed_bits(st, data.drop_last());
        assert(before.len() == 0 ==> s.level == st.level);
    }
}

proof fn lemma_levels_prefix(st: LinkState, data: Seq<bool>, i: int)
    requires
        0 <= i <= data.len(),
    ensures
        levels(st.level, data).len() == data.len(),
        levels(st.level, data.take(i)) == levels(st.level, data).take(i),
        i < data.len() ==> levels(st.level, data)[i] == level_for(
            feed_bits(st, data.take(i)),
            data[i],
        ),
    decreases data.len(),
{
    lemma_levels(st, data);
    if i == data.len() {
        assert(data.take(i) =~= data);
        assert(levels(st.level, data).take(i) =~= levels(st.level, data));
    } else {
        lemma_levels_prefix(st, data.drop_last(), i);
        assert(data.drop_last().take(i) =~= data.take(i));
        let all = levels(st.level, data);
        let before = levels(st.level, data.drop_last());
        assert(all.take(i) =~= before.take(i));
        if i == data.len() - 1 {
            assert(data.take(i) =~= data.drop_last());
            lemma_levels(st, data.drop_last());
            assert(before.len() == 0 ==> feed_bits(st, data.take(i)).level == st.level);
        }
    }
}

proof fn lemma_feed_bits_add(st: LinkState, a: Seq<bool>, b: Seq<bool>)
    ensures
        feed_bits(st, a + b) == feed_bits(feed_bits(st, a), b),
    decreases b.len(),
{
    if b.len() == 0 {
        assert(a + b =~= a);
    } else {
        lemma_feed_bits_add(st, a, b.drop_last());
        assert((a + b).drop_last() =~= a + b.drop_last());
        assert((a + b).last() == b.last());
    }
}

proof fn lemma_silent_add(st: LinkState, a: Seq<bool>, b: Seq<bool>)
    requires
        silent(st, a),
        silent(feed_bits(st, a), b),
    ensures
        silent(st, a + b),
{
    assert forall|i: int| 0 <= i < (a + b).len() implies ({
        let s = #[trigger] feed_bits(st, (a + b).take(i));
        s.completes(level_for(s, (a + b)[i])) is None
    }) by {
        if i < a.len() {
            assert((a + b).take(i) =~= a.take(i));
            let s = feed_bits(st, a.take(i));
            assert(s.completes(level_for(s, a[i])) is None);
        } else {
            let j = i - a.len();
            assert((a + b).take(i) =~= a + b.take(j));
            lemma_feed_bits_add(st, a, b.take(j));
            let s = feed_bits(feed_bits(st, a), b.take(j));
            assert(s.completes(level_for(s, b[j])) is None);
        }
    }
}

/// A one behind fewer than six ones is data.
proof fn lemma_one(st: LinkState, r: int)
    requires
        trailing_ones(st.window, r),
        r < 6,
    ensures
        ({
            let raw = level_for(st, true);
            let n = st.next(raw);
            &&& trailing_ones(n.window, r + 1)
            &&& st.completes(raw) is None
            &&& n.bits == match st.bits {
                Some(b) => collected(b.push(true)),
                None => None,
            }
        }),
{
    let w = st.window.drop_first().push(true);
    assert(w[7] == true);
    assert(framer::flag_bits()[7] == false);
    assert(w != framer::flag_bits());
    assert(w[7 - (r + 1)] == st.window[7 - r]);
    assert(framer::abort_bits()[6 - r] == true);
    assert(w != framer::abort_bits());
    if framer::ends_stuffed(w) {
        assert(w.subrange(2, 8)[5] == false);
    }
}

/// A zero behind fewer than five ones is data.
proof fn lemma_zero(st: LinkState, r: int)
    requires
        trailing_ones(st.window, r),
        r < 5,
    ensures
        ({
            let raw = level_for(st, false);
            let n = st.next(raw);
            &&& trailing_ones(n.window, 0)
            &&& st.completes(raw) is None
            &&& n.bits == match st.bits {
                Some(b) => collected(b.push(false)),
                None => None,
            }
        }),
{
    let w = st.window.drop_first().push(false);
    assert(w[6 - r] == false);
    assert(framer::flag_bits()[6 - r] == true);
    assert(w != framer::flag_bits());
    assert(framer::abort_bits()[7] == true);
    assert(w != framer::abort_bits());
    if framer::ends_stuffed(w) {
        assert(w.subrange(2, 8)[4 - r] == true);
    }
}

/// A zero behind exactly five ones is dropped.
proof fn lemma_stuffed_zero(st: LinkState)
    requires
        trailing_ones(st.window, 5),
    ensures
        ({
            let raw = level_for(st, false);
            let n = st.next(raw);
            &&& trailing_ones(n.window, 0)
            &&& st.completes(raw) is None
            &&& n.bits == st.bits
        }),
{
    let w = st.window.drop_first().push(false);
    assert(w[1] == false);
    assert(framer::flag_bits()[1] == true);
    assert(w != framer::flag_bits());
    assert(framer::abort_bits()[7] == true);
    assert(w != framer::abort_bits());
    assert(w.subrange(2, 8) =~= seq![true, true, true, true, true, false]);
}

/// A zero behind exactly six ones is a flag.
proof fn lemma_flag_end(st: LinkState)
    requires
        trailing_ones(st.window, 6),
    ensures
        ({
            let raw = level_for(st, false);
            let n = st.next(raw);
            &&& trailing_ones(n.window, 0)
            &&& n.window == framer::flag_bits()
            &&& n.bits == Some(Seq::<bool>::empty())
            &&& st.completes(raw) == match st.bits {
                Some(b) if b.len() / 8 >= framer::MIN_FRAME_LEN => Some(
                    b.take(8 * (b.len() / 8) as int),
                ),
                _ => None,
            }
        }),
{
    let w = st.window.drop_first().push(false);
    assert(w =~= framer::flag_bits());
    assert(framer::abort_bits()[7] == true && framer::flag_bits()[7] == false);
    assert(framer::flag_bits() != framer::abort_bits());
}

/// The framer collects exactly the data that was stuffed.
proof fn lemma_body(st: LinkState, data: Seq<bool>)
    requires
        trailing_ones(st.window, 0),
        st.bits == Some(Seq::<bool>::empty()),
    ensures
        run(data) <= 4,
        trailing_ones(feed_bits(st, stuffed(data)).window, run(data) as int),
        feed_bits(st, stuffed(data)).bits == collected(data),
        silent(st, stuffed(data)),
    decreases data.len(),
{
    if data.len() == 0 {
        assert(data =~= Seq::<bool>::empty());
    } else {
        let head = data.drop_last();
        let d = data.last();
        lemma_body(st, head);
        let s = feed_bits(st, stuffed(head));
        let r = run(head) as int;
        assert(head.push(d) =~= data);
        if d {
            lemma_one(s, r);
        } else {
            lemma_zero(s, r);
        }
        let one = seq![d];
        assert(one.drop_last() =~= Seq::<bool>::empty());
        let s1 = feed_bits(s, one);
        assert(s1 == s.next(level_for(s, d))) by {
            reveal_with_fuel(feed_bits, 2);
        }
        assert(silent(s, one)) by {
            assert(one.take(0) =~= Seq::<bool>::empty());
        }
        lemma_feed_bits_add(st, stuffed(head), one);
        lemma_silent_add(st, stuffed(head), one);
        assert(stuffed(head) + one =~= stuffed(head).push(d));
        if d && r == 4 {
            lemma_stuffed_zero(s1);
            let zero = seq![false];
            assert(zero.drop_last() =~= Seq::<bool>::empty());
            assert(feed_bits(s1, zero) == s1.next(level_for(s1, false))) by {
                reveal_with_fuel(feed_bits, 2);
            }
            assert(silent(s1, zero)) by {
                assert(zero.take(0) =~= Seq::<bool>::empty());
            }
            lemma_feed_bits_add(st, stuffed(head).push(d), zero);
            lemma_silent_add(st, stuffed(head).push(d), zero);
            assert(stuffed(head).push(d) + zero =~= stuffed(data));
        }
    }
}

/// `n` ones fed to a framer.
proof fn lemma_ones(st: LinkState, r: int, n: nat)
    requires
        trailing_ones(st.window, r),
        r + n <= 6,
    ensures
        ({
            let ones = Seq::new(n, |i: int| true);
            let s = feed_bits(st, ones);
            &&& trailing_ones(s.window, r + n)
            &&& silent(st, ones)
            &&& s.bits == match st.bits {
                Some(b) if n > 0 => collected(b + ones),
                _ => st.bits,
            }
        }),
    decreases n,
{
    let ones = Seq::new(n, |i: int| true);
    if n > 0 {
        let fewer = Seq::new((n - 1) as nat, |i: int| true);
        assert(ones.drop_last() =~= fewer);
        lemma_ones(st, r, (n - 1) as nat);
        let s = feed_bits(st, fewer);
        lemma_one(s, r + n - 1);
        if st.bits is Some {
            let b = st.bits->0;
            assert((b + fewer).push(true) =~= b + ones);
            assert(b + fewer =~= b || n > 1);
        }
        assert forall|i: int| 0 <= i < n implies ({
            let q = #[trigger] feed_bits(st, ones.take(i));
            q.completes(level_for(q, ones[i])) is None
        }) by {
            if i < n - 1 {
                assert(ones.take(i) =~= fewer.take(i));
                let q = feed_bits(st, fewer.take(i));
                assert(q.completes(level_for(q, fewer[i])) is None);
            } else {
                assert(ones.take(i) =~= fewer);
            }
        }
    }
}

/// A flag ends the frame: what was collected is delivered on its last bit.
proof fn lemma_closing_flag(st: LinkState, data: Seq<bool>, r: int)
    requires
        trailing_ones(st.window, r),
        r <= 4,
        st.bits == collected(data),
        data.len() % 8 == 0,
    ensures
        ({
            let flag = framer::flag_bits();
            let s = feed_bits(st, flag.take(7));
            &&& silent(st, flag.take(7))
            &&& s.completes(level_for(s, false)) == if framer::MIN_FRAME_LEN <= data.len() / 8
                <= framer::MAX_FRAME_LEN {
                Some(data)
            } else {
                None
            }
            &&& feed_bits(st, flag).window == flag
            &&& feed_bits(st, flag).bits == Some(Seq::<bool>::empty())
        }),
{
    let flag = framer::flag_bits();
    let zero = seq![false];
    let ones = Seq::new(6, |i: int| true);
    lemma_zero(st, r);
    assert(zero.drop_last() =~= Seq::<bool>::empty());
    let s1 = feed_bits(st, zero);
    assert(s1 == st.next(level_for(st, false))) by {
        reveal_with_fuel(feed_bits, 2);
    }
    assert(silent(st, zero)) by {
        assert(zero.take(0) =~= Seq::<bool>::empty());
    }
    lemma_ones(s1, 0, 6);
    lemma_feed_bits_add(st, zero, ones);
    lemma_silent_add(st, zero, ones);
    assert(zero + ones =~= flag.take(7));
    let s = feed_bits(st, flag.take(7));
    lemma_flag_end(s);
    assert(flag.drop_last() =~= flag.take(7));
    let all = data.push(false) + ones;
    assert(all.len() == data.len() + 7);
    assert(all.take(data.len() as int) =~= data);
    if s.bits is Some {
        assert(s.bits == Some(all));
    }
}

/// A frame sent after a flag is delivered on the last bit of its closing flag, bit for
/// bit as the sender put it in, and nothing is delivered before that.
///
/// One flag may close a frame and open the next: the state afterwards is again that
/// of a framer which has just seen a flag.
pub proof fn law_frame_after_flag(st: LinkState, payload: Seq<u8>)
    requires
        st.window == framer::flag_bits(),
        st.bits == Some(Seq::<bool>::empty()),
    ensures
        ({
            let line = levels(st.level, frame_tail(payload));
            let last = feed(st, line.drop_last());
            let done = feed(st, line);
            &&& line.len() > 0
            &&& last.completes(line.last()) == delivered(payload)
            &&& done.window == framer::flag_bits()
            &&& done.bits == Some(Seq::<bool>::empty())
            &&& forall|i: int|
                0 <= i < line.len() - 1 ==> (#[trigger] feed(st, line.take(i))).completes(line[i])
                    is None
        }),
{
    let data = bits::bytes_bits(payload);
    let body = stuffed(data);
    let flag = framer::flag_bits();
    let tail = frame_tail(payload);
    let line = levels(st.level, tail);
    lemma_body(st, data);
    let s = feed_bits(st, body);
    lemma_closing_flag(s, data, run(data) as int);
    assert(data.len() / 8 == payload.len());
    let most = body + flag.take(7);
    lemma_feed_bits_add(st, body, flag.take(7));
    lemma_feed_bits_add(st, body, flag);
    lemma_silent_add(st, body, flag.take(7));
    assert(tail.drop_last() =~= most);
    lemma_levels(st, tail);
    let n = tail.len() as int;
    lemma_levels_prefix(st, tail, n - 1);
    assert(tail.take(n - 1) =~= most);
    assert(line.drop_last() =~= line.take(n - 1));
    lemma_levels(st, most);
    assert forall|i: int| 0 <= i < line.len() - 1 implies (#[trigger] feed(
        st,
        line.take(i),
    )).completes(line[i]) is None by {
        lemma_levels_prefix(st, tail, i);
        lemma_levels(st, tail.take(i));
        assert(tail.take(i) =~= most.take(i));
        let q = feed_bits(st, most.take(i));
        assert(q.completes(level_for(q, most[i])) is None);
    }
}

/// Whatever a framer has received before, the flag pattern puts it at the start of a
/// frame.
pub proof fn law_flag_synchronises(st: LinkState)
    requires
        st.window.len() == 8,
    ensures
        ({
            let done = feed(st, levels(st.level, framer::flag_bits()));
            &&& done.window == framer::flag_bits()
            &&& done.bits == Some(Seq::<bool>::empty())
        }),
{
    let flag = framer::flag_bits();
    lemma_levels(st, flag);
    lemma_window(st, flag);
    assert((st.window + flag).skip(8) =~= flag);
    assert(framer::abort_bits()[7] == true && flag[7] == false);
}

/// Whatever a framer has received before, a zero and seven ones leave it outside any
/// frame.
pub proof fn law_abort_drops_frame(st: LinkState)
    requires
        st.window.len() == 8,
    ensures
        feed(st, levels(st.level, framer::abort_bits())).bits is None,
{
    let abort = framer::abort_bits();
    lemma_levels(st, abort);
    lemma_window(st, abort);
    assert((st.window + abort).skip(8) =~= abort);
}

/// The window holds the last eight logical bits.
proof fn lemma_window(st: LinkState, data: Seq<bool>)
    requires
        st.window.len() == 8,
    ensures
        feed_bits(st, data).window == (st.window + data).skip(data.len() as int),
    decreases data.len(),
{
    if data.len() > 0 {
        lemma_window(st, data.drop_last());
        let w = feed_bits(st, data.drop_last()).window;
        assert(w.drop_first().push(data.last()) =~= (st.window + data).skip(data.len() as int));
    } else {
        assert((st.window + data).skip(0) =~= st.window);
    }
}

/// A whole transmission (flag, body, flag) received in any state ends with the payload
/// delivered on its last bit, and nothing is delivered between the two flags.
pub proof fn law_transmission_delivered(st: LinkState, payload: Seq<u8>)
    requires
        st.window.len() == 8,
    ensures
        ({
            let opening = levels(st.level, framer::flag_bits());
            let open = feed(st, opening);
            let line = levels(open.level, frame_tail(payload));
            &&& line.len() > 0
            &&& feed(open, line.drop_last()).completes(line.last()) == delivered(payload)
            &&& forall|i: int|
                0 <= i < line.len() - 1 ==> (#[trigger] feed(open, line.take(i))).completes(line[i])
                    is None
        }),
{
    law_flag_synchronises(st);
    law_frame_after_flag(feed(st, levels(st.level, framer::flag_bits())), payload);
}

} // verus!
