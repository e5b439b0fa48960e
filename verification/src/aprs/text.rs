//! Frames as text lines, and a measure of how little an information field is text.

use vstd::prelude::*;

use crate::ax25::frame::{Ax25Frame, FrameView};
use crate::text;

verus! {

/// `char::from_u32` converts a scalar value to a character, and refuses numbers that
/// are surrogates or beyond the last code point.
pub assume_specification[ char::from_u32 ](i: u32) -> (r: Option<char>)
    ensures
        r == if i <= 0xD7FF || 0xE000 <= i <= 0x10FFFF {
            Some(i as char)
        } else {
            None
        },
;

/// Stands in for bytes that encode nothing.
pub const REPLACEMENT: char = '\u{FFFD}';

/// A byte of the form `10xxxxxx`.
pub open spec fn continues(b: u8) -> bool {
    0x80 <= b <= 0xBF
}

/// Bytes in the encoding that `b` starts; zero if it starts none.
pub open spec fn width(b: u8) -> int {
    if b < 0x80 {
        1
    } else if 0xC2 <= b <= 0xDF {
        2
    } else if 0xE0 <= b <= 0xEF {
        3
    } else if 0xF0 <= b <= 0xF4 {
        4
    } else {
        0
    }
}

/// The second byte rules out overlong forms, surrogates and numbers out of range.
pub open spec fn second_ok(b0: u8, b1: u8) -> bool {
    &&& continues(b1)
    &&& b0 == 0xE0 ==> b1 >= 0xA0
    &&& b0 == 0xED ==> b1 <= 0x9F
    &&& b0 == 0xF0 ==> b1 >= 0x90
    &&& b0 == 0xF4 ==> b1 <= 0x8F
}

/// Length of the longest start of `bytes` that is a whole encoding or could have become
/// one; a byte that can start nothing counts alone.
pub open spec fn subpart(bytes: Seq<u8>) -> int {
    let w = width(bytes[0]);
    if w >= 2 && bytes.len() >= 2 && second_ok(bytes[0], bytes[1]) {
        if w >= 3 && bytes.len() >= 3 && continues(bytes[2]) {
            if w >= 4 && bytes.len() >= 4 && continues(bytes[3]) {
                4
            } else {
                3
            }
        } else {
            2
        }
    } else {
        1
    }
}

/// The first subpart is a whole encoding.
pub open spec fn whole(bytes: Seq<u8>) -> bool {
    subpart(bytes) == width(bytes[0])
}

/// The number that a whole encoding stands for.
pub open spec fn scalar(bytes: Seq<u8>) -> int {
    let w = width(bytes[0]);
    if w == 1 {
        bytes[0] as int
    } else if w == 2 {
        (bytes[0] - 0xC0) * 64 + (bytes[1] - 0x80)
    } else if w == 3 {
        (bytes[0] - 0xE0) * 4096 + (bytes[1] - 0x80) * 64 + (bytes[2] - 0x80)
    } else {
        (bytes[0] - 0xF0) * 262144 + (bytes[1] - 0x80) * 4096 + (bytes[2] - 0x80) * 64 + (bytes[3]
            - 0x80)
    }
}

/// Bytes as text: each whole encoding becomes its character, each other subpart the
/// replacement character.
pub open spec fn rendered(bytes: Seq<u8>) -> Seq<char>
    decreases bytes.len(),
{
    if bytes.len() == 0 {
        Seq::empty()
    } else {
        let c = if whole(bytes) {
            scalar(bytes) as char
        } else {
            REPLACEMENT
        };
        seq![c] + rendered(bytes.skip(subpart(bytes)))
    }
}

/// Number of bytes that belong to no whole encoding.
pub open spec fn stray(bytes: Seq<u8>) -> int
    decreases bytes.len(),
{
    if bytes.len() == 0 {
        0
    } else {
        (if whole(bytes) {
            0
        } else {
            subpart(bytes)
        }) + stray(bytes.skip(subpart(bytes)))
    }
}

/// Bytes that a text line shows: tab, printable ASCII and everything above.
pub open spec fn shown(b: u8) -> bool {
    b == 9 || 0x20 <= b < 0x7F || b >= 0x80
}

/// A control byte that text has no use for. Tab is legal, and carriage return and line
/// feed are harmless line endings.
pub open spec fn control(b: u8) -> bool {
    b < 0x20 && b != 9 && b != 13 && b != 10
}

/// Number of control bytes.
pub open spec fn controls(bytes: Seq<u8>) -> int
    decreases bytes.len(),
{
    if bytes.len() == 0 {
        0
    } else {
        controls(bytes.drop_last()) + if control(bytes.last()) {
            1int
        } else {
            0
        }
    }
}

/// Number of bytes that are almost certainly no payload.
pub open spec fn suspect(info: Seq<u8>) -> int {
    controls(info) + stray(info)
}

/// The first `n` path entries of a text line; an asterisk marks those that have
/// repeated the frame.
pub open spec fn path_text(f: FrameView, n: int) -> Seq<char>
    decreases n,
{
    if n <= 0 {
        Seq::empty()
    } else {
        path_text(f, n - 1) + seq![','] + f.via[n - 1] + if f.via_heard[n - 1] {
            seq!['*']
        } else {
            Seq::<char>::empty()
        }
    }
}

/// Number of path entries with a repeated flag.
pub open spec fn path_len(f: FrameView) -> int {
    if f.via.len() <= f.via_heard.len() {
        f.via.len() as int
    } else {
        f.via_heard.len() as int
    }
}

/// A frame as a text line: `SOURCE>DESTINATION,PATH:info`.
pub open spec fn tnc2(f: FrameView) -> Seq<char> {
    f.source + seq!['>'] + f.destination + path_text(f, path_len(f)) + seq![':'] + rendered(
        f.info.filter(|b: u8| shown(b)),
    )
}

fn continues_exec(b: u8) -> (r: bool)
    ensures
        r == continues(b),
{
    0x80 <= b && b <= 0xBF
}

fn second_ok_exec(b0: u8, b1: u8) -> (r: bool)
    ensures
        r == second_ok(b0, b1),
{
    continues_exec(b1) && !(b0 == 0xE0 && b1 < 0xA0) && !(b0 == 0xED && b1 > 0x9F) && !(b0 == 0xF0
        && b1 < 0x90) && !(b0 == 0xF4 && b1 > 0x8F)
}

/// Length of the subpart at `pos`, and its character if it is a whole encoding.
fn next_subpart(bytes: &[u8], pos: usize) -> (r: (usize, Option<char>))
    requires
        pos < bytes@.len(),
    ensures
        r.0 == subpart(bytes@.skip(pos as int)),
        1 <= r.0 <= bytes@.len() - pos,
        r.1 is Some <==> whole(bytes@.skip(pos as int)),
        r.1 matches Some(c) ==> c == scalar(bytes@.skip(pos as int)) as char,
{
    let ghost rest = bytes@.skip(pos as int);
    let left: usize = bytes.len() - pos;
    let b0: u8 = bytes[pos];
    if b0 < 0x80 {
        return (1, Some(b0 as char));
    }
    let w: usize = if b0 < 0xC2 {
        0
    } else if b0 < 0xE0 {
        2
    } else if b0 < 0xF0 {
        3
    } else if b0 < 0xF5 {
        4
    } else {
        0
    };
    if w == 0 || left < 2 {
        return (1, None);
    }
    let b1: u8 = bytes[pos + 1];
    assert(rest[1] == b1);
    if !second_ok_exec(b0, b1) {
        return (1, None);
    }
    let c1: u32 = (b1 - 0x80) as u32;
    if w == 2 {
        let v: u32 = (b0 as u32 - 0xC0) * 64 + c1;
        return (2, char::from_u32(v));
    }
    if left < 3 {
        return (2, None);
    }
    let b2: u8 = bytes[pos + 2];
    assert(rest[2] == b2);
    if !continues_exec(b2) {
        return (2, None);
    }
    let c2: u32 = (b2 - 0x80) as u32;
    if w == 3 {
        let v: u32 = (b0 as u32 - 0xE0) * 4096 + c1 * 64 + c2;
        return (3, char::from_u32(v));
    }
    if left < 4 {
        return (3, None);
    }
    let b3: u8 = bytes[pos + 3];
    assert(rest[3] == b3);
    if !continues_exec(b3) {
        return (3, None);
    }
    let c3: u32 = (b3 - 0x80) as u32;
    let v: u32 = (b0 as u32 - 0xF0) * 262144 + c1 * 4096 + c2 * 64 + c3;
    (4, char::from_u32(v))
}

/// Append bytes as text.
fn push_rendered(s: &mut String, bytes: &[u8])
    ensures
        final(s)@ == old(s)@ + rendered(bytes@),
{
    let ghost before = s@;
    let mut pos: usize = 0;
    assert(bytes@.skip(0) =~= bytes@);
    while pos < bytes.len()
        invariant
            pos <= bytes@.len(),
            s@ + rendered(bytes@.skip(pos as int)) == before + rendered(bytes@),
        decreases bytes@.len() - pos,
    {
        let ghost rest = bytes@.skip(pos as int);
        let ghost sofar = s@;
        let (n, c) = next_subpart(bytes, pos);
        match c {
            Some(c) => s.push(c),
            None => s.push(REPLACEMENT),
        }
        pos = pos + n;
        proof {
            assert(rest.skip(n as int) =~= bytes@.skip(pos as int));
            assert(rendered(rest) == seq![s@.last()] + rendered(bytes@.skip(pos as int)));
            assert(s@ + rendered(bytes@.skip(pos as int)) =~= sofar + rendered(rest));
        }
    }
    assert(s@ + rendered(bytes@.skip(pos as int)) =~= s@);
}

/// Bytes as text.
pub fn render_bytes(bytes: &[u8]) -> (r: String)
    ensures
        r@ == rendered(bytes@),
{
    let mut s: String = String::new();
    push_rendered(&mut s, bytes);
    assert(s@ =~= rendered(bytes@));
    s
}

/// The bytes that a text line shows.
fn shown_bytes(info: &[u8]) -> (r: Vec<u8>)
    ensures
        r@ == info@.filter(|b: u8| shown(b)),
{
    let mut r: Vec<u8> = Vec::new();
    let mut i: usize = 0;
    let ghost keep = |b: u8| shown(b);
    proof {
        reveal(Seq::filter);
    }
    while i < info.len()
        invariant
            i <= info@.len(),
            keep == (|b: u8| shown(b)),
            r@ == info@.take(i as int).filter(keep),
        decreases info@.len() - i,
    {
        let b: u8 = info[i];
        proof {
            reveal(Seq::filter);
            assert(info@.take(i + 1).drop_last() =~= info@.take(i as int));
            assert(info@.take(i + 1).last() == b);
        }
        if b == 9 || (0x20 <= b && b < 0x7F) || b >= 0x80 {
            r.push(b);
        }
        i = i + 1;
    }
    assert(info@.take(i as int) =~= info@);
    r
}

/// Format a frame as a text line.
///
/// This is for display: control bytes other than tab are left out, and bytes that are
/// not UTF-8 show as the replacement character. Consumers that need exact bytes read
/// the information field itself.
pub fn to_tnc2(frame: &Ax25Frame) -> (r: String)
    ensures
        r@ == tnc2(frame@),
{
    let mut s: String = String::new();
    text::push_text(&mut s, frame.source.as_str());
    s.push('>');
    text::push_text(&mut s, frame.destination.as_str());
    let ghost head = frame@.source + seq!['>'] + frame@.destination;
    assert(s@ =~= head + path_text(frame@, 0));
    let mut i: usize = 0;
    while i < frame.via.len() && i < frame.via_heard.len()
        invariant
            i <= frame.via@.len(),
            i <= frame.via_heard@.len(),
            s@ == head + path_text(frame@, i as int),
        decreases frame.via@.len() - i,
    {
        let ghost before = s@;
        s.push(',');
        text::push_text(&mut s, frame.via[i].as_str());
        if frame.via_heard[i] {
            s.push('*');
        }
        i = i + 1;
        assert(frame@.via[i - 1] == frame.via@[i - 1]@);
        assert(s@ =~= head + path_text(frame@, i as int));
    }
    s.push(':');
    let info = shown_bytes(frame.info.as_slice());
    push_rendered(&mut s, info.as_slice());
    assert(s@ =~= tnc2(frame@));
    s
}

/// Count the bytes of an information field that signal corrupt or non-text content:
/// control bytes other than tab, carriage return and line feed, and bytes that are not
/// part of valid UTF-8.
///
/// No byte is both, so this is a plain sum.
pub fn count_suspect_bytes(info: &[u8]) -> (r: usize)
    ensures
        r == suspect(info@),
{
    let mut count: usize = count_invalid_utf8(info);
    let ghost invalid = count;
    let mut i: usize = 0;
    proof {
        lemma_suspect_bound(info@);
    }
    while i < info.len()
        invariant
            i <= info@.len(),
            invalid == stray(info@),
            count == invalid + controls(info@.take(i as int)),
            suspect(info@) <= info@.len(),
        decreases info@.len() - i,
    {
        let b: u8 = info[i];
        proof {
            assert(info@.take(i + 1).drop_last() =~= info@.take(i as int));
            lemma_controls_prefix(info@, i + 1);
        }
        if b < 0x20 && b != 9 && b != 13 && b != 10 {
            count = count + 1;
        }
        i = i + 1;
    }
    assert(info@.take(i as int) =~= info@);
    count
}

/// Count the bytes that are not part of a valid UTF-8 sequence.
fn count_invalid_utf8(bytes: &[u8]) -> (r: usize)
    ensures
        r == stray(bytes@),
        r <= bytes@.len(),
{
    let mut count: usize = 0;
    let mut pos: usize = 0;
    assert(bytes@.skip(0) =~= bytes@);
    while pos < bytes.len()
        invariant
            count <= pos <= bytes@.len(),
            count + stray(bytes@.skip(pos as int)) == stray(bytes@),
        decreases bytes@.len() - pos,
    {
        let ghost rest = bytes@.skip(pos as int);
        let (n, c) = next_subpart(bytes, pos);
        if c.is_none() {
            count = count + n;
        }
        pos = pos + n;
        assert(rest.skip(n as int) =~= bytes@.skip(pos as int));
    }
    count
}

proof fn lemma_controls_prefix(bytes: Seq<u8>, n: int)
    requires
        0 <= n <= bytes.len(),
    ensures
        0 <= controls(bytes.take(n)) <= controls(bytes),
    decreases bytes.len(),
{
    if n == bytes.len() {
        assert(bytes.take(n) =~= bytes);
        lemma_controls_nonnegative(bytes);
    } else {
        lemma_controls_prefix(bytes.drop_last(), n);
        assert(bytes.drop_last().take(n) =~= bytes.take(n));
    }
}

proof fn lemma_controls_nonnegative(bytes: Seq<u8>)
    ensures
        controls(bytes) >= 0,
    decreases bytes.len(),
{
    if bytes.len() > 0 {
        lemma_controls_nonnegative(bytes.drop_last());
    }
}

proof fn lemma_controls_add(a: Seq<u8>, b: Seq<u8>)
    ensures
        controls(a + b) == controls(a) + controls(b),
    decreases b.len(),
{
    if b.len() == 0 {
        assert(a + b =~= a);
    } else {
        assert((a + b).drop_last() =~= a + b.drop_last());
        lemma_controls_add(a, b.drop_last());
    }
}

/// A byte is suspect for at most one reason.
proof fn lemma_suspect_bound(bytes: Seq<u8>)
    ensures
        0 <= suspect(bytes) <= bytes.len(),
    decreases bytes.len(),
{
    if bytes.len() > 0 {
        let n = subpart(bytes);
        let head = bytes.take(n);
        let rest = bytes.skip(n);
        assert(head + rest =~= bytes);
        lemma_controls_add(head, rest);
        lemma_suspect_bound(rest);
        reveal_with_fuel(controls, 5);
        if n > 1 || !whole(bytes) {
            assert forall|i: int| 0 <= i < n implies !control(#[trigger] head[i]) by {}
            lemma_no_controls(head);
        } else {
            assert(head.drop_last() =~= Seq::<u8>::empty());
        }
    }
}

proof fn lemma_no_controls(bytes: Seq<u8>)
    requires
        forall|i: int| 0 <= i < bytes.len() ==> !control(#[trigger] bytes[i]),
    ensures
        controls(bytes) == 0,
    decreases bytes.len(),
{
    if bytes.len() > 0 {
        assert(!control(bytes.last()));
        assert forall|i: int| 0 <= i < bytes.len() - 1 implies !control(
            #[trigger] bytes.drop_last()[i],
        ) by {
            assert(!control(bytes[i]));
        }
        lemma_no_controls(bytes.drop_last());
    }
}

/// A whole first subpart is what UTF-8 calls a valid first scalar, with the same value
/// and length.
proof fn lemma_whole(bytes: Seq<u8>)
    requires
        bytes.len() > 0,
    ensures
        whole(bytes) <==> vstd::utf8::valid_first_scalar(bytes),
        whole(bytes) ==> subpart(bytes) == vstd::utf8::length_of_first_scalar(bytes),
        whole(bytes) ==> scalar(bytes) == vstd::utf8::decode_first_scalar(bytes),
{
    let b0 = bytes[0];
    let b1 = bytes[1];
    let b2 = bytes[2];
    let b3 = bytes[3];
    assert({
        &&& b0 < 0x80 ==> vstd::utf8::codepoint_width_1(b0) == b0
        &&& 0xC0 <= b0 <= 0xDF && 0x80 <= b1 <= 0xBF ==> vstd::utf8::codepoint_width_2(b0, b1) == (
        b0 - 0xC0) * 64 + (b1 - 0x80)
        &&& 0xE0 <= b0 <= 0xEF && 0x80 <= b1 <= 0xBF && 0x80 <= b2 <= 0xBF
            ==> vstd::utf8::codepoint_width_3(b0, b1, b2) == (b0 - 0xE0) * 4096 + (b1 - 0x80) * 64
            + (b2 - 0x80)
        &&& 0xF0 <= b0 <= 0xF7 && 0x80 <= b1 <= 0xBF && 0x80 <= b2 <= 0xBF && 0x80 <= b3 <= 0xBF
            ==> vstd::utf8::codepoint_width_4(b0, b1, b2, b3) == (b0 - 0xF0) * 262144 + (b1 - 0x80)
            * 4096 + (b2 - 0x80) * 64 + (b3 - 0x80)
    }) by (bit_vector);
}

/// No byte is stray exactly when the bytes are valid UTF-8, and then they are rendered
/// as the characters they encode.
pub proof fn law_valid_utf8_is_clean(bytes: Seq<u8>)
    ensures
        stray(bytes) == 0 <==> vstd::utf8::valid_utf8(bytes),
        vstd::utf8::valid_utf8(bytes) ==> rendered(bytes) == vstd::utf8::decode_utf8(bytes),
    decreases bytes.len(),
{
    if bytes.len() > 0 {
        lemma_whole(bytes);
        let rest = bytes.skip(subpart(bytes));
        lemma_suspect_bound(rest);
        lemma_controls_nonnegative(rest);
        lemma_stray_nonnegative(rest);
        law_valid_utf8_is_clean(rest);
        if whole(bytes) {
            assert(rest =~= vstd::utf8::pop_first_scalar(bytes));
        }
    }
}

proof fn lemma_stray_nonnegative(bytes: Seq<u8>)
    ensures
        stray(bytes) >= 0,
    decreases bytes.len(),
{
    if bytes.len() > 0 {
        lemma_stray_nonnegative(bytes.skip(subpart(bytes)));
    }
}

/// Text that is encoded as UTF-8 is rendered back unchanged, with no stray bytes.
pub proof fn law_text_round_trip(chars: Seq<char>)
    ensures
        rendered(vstd::utf8::encode_utf8(chars)) == chars,
        stray(vstd::utf8::encode_utf8(chars)) == 0,
{
    vstd::utf8::encode_utf8_valid_utf8(chars);
    vstd::utf8::encode_utf8_decode_utf8(chars);
    law_valid_utf8_is_clean(vstd::utf8::encode_utf8(chars));
}

/// The number of suspect bytes is at most the number of bytes, and it is zero exactly
/// for valid UTF-8 without control bytes.
pub proof fn law_suspect_bytes(info: Seq<u8>)
    ensures
        0 <= suspect(info) <= info.len(),
        suspect(info) == 0 <==> vstd::utf8::valid_utf8(info) && controls(info) == 0,
{
    lemma_suspect_bound(info);
    lemma_controls_nonnegative(info);
    lemma_stray_nonnegative(info);
    law_valid_utf8_is_clean(info);
}

/// One path entry of a text line: a comma, the callsign, and an asterisk if that digipeater
/// has repeated the frame.
pub open spec fn entry(call: Seq<char>, heard: bool) -> Seq<char> {
    if heard {
        seq![','] + call + seq!['*']
    } else {
        seq![','] + call
    }
}

/// A text line is source, `>`, destination, the path entries one after the other, `:`, and
/// the rendered information field without its control bytes other than tab.
pub proof fn law_line_layout(f: FrameView)
    requires
        f.via.len() == f.via_heard.len(),
    ensures
        tnc2(f) == f.source + seq!['>'] + f.destination + Seq::new(
            f.via.len(),
            |i: int| entry(f.via[i], f.via_heard[i]),
        ).flatten() + seq![':'] + rendered(
            f.info.filter(|b: u8| b == 9 || (0x20 <= b && b != 0x7F)),
        ),
{
    let entries = Seq::new(f.via.len(), |i: int| entry(f.via[i], f.via_heard[i]));
    lemma_path_text(f, entries, f.via.len() as int);
    assert(entries.take(f.via.len() as int) =~= entries);
    let a = |b: u8| b == 9 || (0x20 <= b && b != 0x7F);
    let b = |b: u8| shown(b);
    lemma_same_filter(f.info, a, b);
}

proof fn lemma_path_text(f: FrameView, entries: Seq<Seq<char>>, n: int)
    requires
        f.via.len() == f.via_heard.len(),
        entries == Seq::new(f.via.len(), |i: int| entry(f.via[i], f.via_heard[i])),
        0 <= n <= f.via.len(),
    ensures
        path_text(f, n) == entries.take(n).flatten(),
    decreases n,
{
    if n > 0 {
        lemma_path_text(f, entries, n - 1);
        let head = entries.take(n - 1);
        assert(entries.take(n) =~= head.push(entries[n - 1]));
        head.lemma_flatten_push(entries[n - 1]);
        assert(path_text(f, n) =~= head.flatten() + entries[n - 1]);
    } else {
        assert(entries.take(0) =~= Seq::<Seq<char>>::empty());
    }
}

proof fn lemma_same_filter(bytes: Seq<u8>, a: spec_fn(u8) -> bool, b: spec_fn(u8) -> bool)
    requires
        forall|x: u8| #[trigger] a(x) == b(x),
    ensures
        bytes.filter(a) == bytes.filter(b),
    decreases bytes.len(),
{
    reveal(Seq::filter);
    if bytes.len() > 0 {
        lemma_same_filter(bytes.drop_last(), a, b);
        assert(a(bytes.last()) == b(bytes.last()));
    }
}

/// The control bytes are those below the space but for tab, line feed and carriage return,
/// each counted once.
pub proof fn law_controls_counted(bytes: Seq<u8>)
    ensures
        controls(bytes) == bytes.filter(
            |b: u8| b < 0x20 && b != 0x09 && b != 0x0A && b != 0x0D,
        ).len(),
        suspect(bytes) == controls(bytes) + stray(bytes),
    decreases bytes.len(),
{
    reveal(Seq::filter);
    if bytes.len() > 0 {
        law_controls_counted(bytes.drop_last());
    }
}

/// Bytes are rendered encoding by encoding: a valid first encoding becomes its character, and
/// anything else one replacement character that stands for as many bytes as count as
/// stray. What follows is rendered, and counted, as if it stood alone.
pub proof fn law_rendered_from_the_front(bytes: Seq<u8>)
    requires
        bytes.len() > 0,
    ensures
        ({
            let n = subpart(bytes);
            let valid = vstd::utf8::valid_first_scalar(bytes);
            &&& 1 <= n <= bytes.len()
            &&& n <= 4
            &&& valid ==> n == vstd::utf8::length_of_first_scalar(bytes)
            &&& rendered(bytes).len() > 0
            &&& valid ==> rendered(bytes)[0] as int == vstd::utf8::decode_first_scalar(bytes)
            &&& !valid ==> rendered(bytes)[0] as int == 0xFFFD
            &&& rendered(bytes).drop_first() == rendered(bytes.skip(n))
            &&& stray(bytes) == stray(bytes.skip(n)) + if valid {
                0
            } else {
                n
            }
        }),
{
    lemma_whole(bytes);
    let n = subpart(bytes);
    assert(rendered(bytes).drop_first() =~= rendered(bytes.skip(n)));
}

/// A stray part is as long as it could still have become a character: with the right bytes
/// behind it it would be one, and one byte more of what is there it would not.
pub proof fn law_stray_part_is_longest(bytes: Seq<u8>)
    requires
        bytes.len() > 0,
        !vstd::utf8::valid_first_scalar(bytes),
    ensures
        subpart(bytes) > 1 ==> exists|more: Seq<u8>| #[trigger]
            vstd::utf8::valid_first_scalar(bytes.take(subpart(bytes)) + more)
                && vstd::utf8::length_of_first_scalar(bytes.take(subpart(bytes)) + more)
                == subpart(bytes) + more.len(),
        subpart(bytes) < bytes.len() ==> forall|more: Seq<u8>|
            !#[trigger] vstd::utf8::valid_first_scalar(bytes.take(subpart(bytes) + 1) + more),
{
    lemma_whole(bytes);
    let n = subpart(bytes);
    let w = width(bytes[0]);
    let part = bytes.take(n);
    if n > 1 {
        let more = Seq::new((w - n) as nat, |i: int| 0x80u8);
        let made = part + more;
        assert(made[0] == bytes[0] && made[1] == bytes[1]);
        if w == 4 {
            assert(continues(made[2]) && continues(made[3]));
        } else {
            assert(continues(made[2]));
        }
        assert(subpart(made) == w);
        lemma_whole(made);
        assert(vstd::utf8::valid_first_scalar(part + more));
    }
    if n < bytes.len() {
        assert forall|more: Seq<u8>| !#[trigger] vstd::utf8::valid_first_scalar(
            bytes.take(n + 1) + more,
        ) by {
            let longer = bytes.take(n + 1) + more;
            lemma_whole(longer);
            assert(longer[0] == bytes[0] && longer[n] == bytes[n]);
            if n > 1 {
                assert(longer[1] == bytes[1]);
            }
            if n > 2 {
                assert(longer[2] == bytes[2]);
            }
        }
    }
}

} // verus!
