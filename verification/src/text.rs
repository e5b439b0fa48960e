//! Characters and strings.

use vstd::prelude::*;

verus! {

/// `String::push` appends one character to the end of the string.
pub assume_specification[ String::push ](s: &mut String, c: char)
    ensures
        final(s)@ == old(s)@.push(c),
;

/// The characters of a string.
pub fn chars_of(s: &str) -> (r: Vec<char>)
    ensures
        r@ == s@,
{
    let mut r: Vec<char> = Vec::new();
    for c in it: s.chars()
        invariant
            it.seq() == s@,
            r@ == it.seq().take(it.index() as int),
    {
        r.push(c);
    }
    r
}

/// Append a string.
pub fn push_text(s: &mut String, t: &str)
    ensures
        final(s)@ == old(s)@ + t@,
{
    let ghost before = s@;
    let chars = chars_of(t);
    let mut i: usize = 0;
    while i < chars.len()
        invariant
            i <= chars@.len(),
            s@ == before + chars@.take(i as int),
        decreases chars@.len() - i,
    {
        s.push(chars[i]);
        i = i + 1;
        assert(chars@.take(i as int) =~= chars@.take(i - 1).push(chars@[i - 1]));
    }
    assert(chars@.take(i as int) =~= chars@);
}

/// A string of its own with the same characters.
pub fn owned(s: &str) -> (r: String)
    ensures
        r@ == s@,
{
    let mut r: String = String::new();
    push_text(&mut r, s);
    assert(r@ =~= s@);
    r
}

/// True if the characters spell `s`.
pub fn spells(chars: &[char], s: &str) -> (r: bool)
    ensures
        r == (chars@ == s@),
{
    let other = chars_of(s);
    if chars.len() != other.len() {
        return false;
    }
    let mut i: usize = 0;
    while i < chars.len()
        invariant
            other@ == s@,
            chars@.len() == other@.len(),
            i <= chars@.len(),
            chars@.take(i as int) == other@.take(i as int),
        decreases chars@.len() - i,
    {
        if chars[i] != other[i] {
            return false;
        }
        i = i + 1;
        assert(chars@.take(i as int) =~= other@.take(i as int));
    }
    assert(chars@.take(i as int) =~= chars@ && other@.take(i as int) =~= other@);
    true
}

/// ASCII decimal digit.
pub open spec fn is_digit(c: char) -> bool {
    '0' <= c <= '9'
}

/// The character of a decimal digit.
pub open spec fn digit_char(d: int) -> char {
    (48 + d) as char
}

/// Decimal notation without leading zeros.
pub open spec fn decimal(n: nat) -> Seq<char>
    decreases n,
{
    if n < 10 {
        seq![digit_char(n as int)]
    } else {
        decimal(n / 10).push(digit_char((n % 10) as int))
    }
}

/// Append `n` in decimal notation.
pub fn push_decimal(s: &mut String, n: u64)
    ensures
        final(s)@ == old(s)@ + decimal(n as nat),
    decreases n,
{
    let ghost before = s@;
    let d: u8 = (n % 10) as u8;
    if n >= 10 {
        push_decimal(s, n / 10);
    }
    s.push((48 + d) as char);
    assert(s@ =~= before + decimal(n as nat));
}

/// All characters are decimal digits, and there is at least one.
pub open spec fn is_number(s: Seq<char>) -> bool {
    s.len() > 0 && forall|i: int| 0 <= i < s.len() ==> is_digit(#[trigger] s[i])
}

/// The number that decimal digits write.
pub open spec fn number(s: Seq<char>) -> nat
    decreases s.len(),
{
    if s.len() == 0 {
        0
    } else {
        (10 * number(s.drop_last()) + (s.last() as int - 48)) as nat
    }
}

/// An unsigned 32-bit number: digits, with or without a plus sign in front.
pub open spec fn parsed_u32(s: Seq<char>) -> Option<u32> {
    let digits = if s.len() > 0 && s[0] == '+' {
        s.drop_first()
    } else {
        s
    };
    if is_number(digits) && number(digits) <= u32::MAX {
        Some(number(digits) as u32)
    } else {
        None
    }
}

/// A signed 32-bit number: digits, with or without a sign in front.
pub open spec fn parsed_i32(s: Seq<char>) -> Option<i32> {
    let negative = s.len() > 0 && s[0] == '-';
    let digits = if s.len() > 0 && (s[0] == '+' || s[0] == '-') {
        s.drop_first()
    } else {
        s
    };
    if !is_number(digits) {
        None
    } else if negative && number(digits) <= 0x8000_0000 {
        Some((-(number(digits) as int)) as i32)
    } else if !negative && number(digits) <= i32::MAX {
        Some(number(digits) as i32)
    } else {
        None
    }
}

proof fn lemma_number_grows(s: Seq<char>, n: int)
    requires
        is_number(s),
        0 <= n <= s.len(),
    ensures
        number(s.take(n)) <= number(s),
    decreases s.len(),
{
    if n == s.len() {
        assert(s.take(n) =~= s);
    } else {
        let t = s.drop_last();
        assert(is_digit(s.last()));
        assert(t.take(n) =~= s.take(n));
        if t.len() > 0 {
            assert forall|i: int| 0 <= i < t.len() implies is_digit(#[trigger] t[i]) by {
                assert(is_digit(s[i]));
            }
            lemma_number_grows(t, n);
        } else {
            assert(s.take(n) =~= t);
        }
    }
}

/// The number that digits write, if it fits 32 bits.
fn parse_digits(chars: &[char]) -> (r: Option<u32>)
    ensures
        r == if is_number(chars@) && number(chars@) <= u32::MAX {
            Some(number(chars@) as u32)
        } else {
            None
        },
{
    if chars.len() == 0 {
        return None;
    }
    let mut value: u64 = 0;
    let mut i: usize = 0;
    while i < chars.len()
        invariant
            i <= chars@.len(),
            value == number(chars@.take(i as int)),
            value <= u32::MAX,
            forall|j: int| 0 <= j < i ==> is_digit(#[trigger] chars@[j]),
        decreases chars@.len() - i,
    {
        let c: char = chars[i];
        if c < '0' || c > '9' {
            assert(!is_digit(chars@[i as int]));
            return None;
        }
        let d: u64 = c as u64 - 48;
        value = value * 10 + d;
        i = i + 1;
        proof {
            assert(chars@.take(i as int).drop_last() =~= chars@.take(i - 1));
        }
        if value > 0xFFFF_FFFF {
            proof {
                if is_number(chars@) {
                    lemma_number_grows(chars@, i as int);
                }
            }
            return None;
        }
    }
    assert(chars@.take(i as int) =~= chars@);
    Some(value as u32)
}

/// Read an unsigned number.
pub fn parse_u32(chars: &[char]) -> (r: Option<u32>)
    ensures
        r == parsed_u32(chars@),
{
    if chars.len() > 0 && chars[0] == '+' {
        let digits = vstd::slice::slice_subrange(chars, 1, chars.len());
        assert(digits@ =~= chars@.drop_first());
        parse_digits(digits)
    } else {
        parse_digits(chars)
    }
}

/// Read a signed number.
pub fn parse_i32(chars: &[char]) -> (r: Option<i32>)
    ensures
        r == parsed_i32(chars@),
{
    let negative: bool = chars.len() > 0 && chars[0] == '-';
    let signed: bool = negative || (chars.len() > 0 && chars[0] == '+');
    let digits = if signed {
        vstd::slice::slice_subrange(chars, 1, chars.len())
    } else {
        chars
    };
    assert(signed ==> digits@ =~= chars@.drop_first());
    match parse_digits(digits) {
        Some(v) => if negative {
            if v <= 0x8000_0000 {
                Some((-(v as i64)) as i32)
            } else {
                None
            }
        } else if v <= 0x7FFF_FFFF {
            Some(v as i32)
        } else {
            None
        },
        None => None,
    }
}

/// A character as ASCII lower case; others stay.
pub open spec fn lower(c: char) -> char {
    if 'A' <= c <= 'Z' {
        (c as int + 32) as char
    } else {
        c
    }
}

/// A text with its ASCII letters in lower case.
pub open spec fn lowered(s: Seq<char>) -> Seq<char> {
    s.map_values(|c: char| lower(c))
}

/// A text with its ASCII letters in lower case.
pub fn to_lower(s: &str) -> (r: Vec<char>)
    ensures
        r@ == lowered(s@),
{
    let chars = chars_of(s);
    let mut r: Vec<char> = Vec::new();
    let mut i: usize = 0;
    while i < chars.len()
        invariant
            i <= chars@.len(),
            r@ == lowered(chars@.take(i as int)),
        decreases chars@.len() - i,
    {
        let c: char = chars[i];
        if c >= 'A' && c <= 'Z' {
            let l: u8 = (c as u32) as u8 + 32;
            r.push(l as char);
        } else {
            r.push(c);
        }
        i = i + 1;
        assert(r@ =~= lowered(chars@.take(i as int)));
    }
    assert(chars@.take(i as int) =~= chars@);
    r
}

/// Unicode white space.
pub open spec fn is_space(c: char) -> bool {
    ||| '\u{9}' <= c <= '\u{D}'
    ||| c == ' '
    ||| c == '\u{85}'
    ||| c == '\u{A0}'
    ||| c == '\u{1680}'
    ||| '\u{2000}' <= c <= '\u{200A}'
    ||| c == '\u{2028}'
    ||| c == '\u{2029}'
    ||| c == '\u{202F}'
    ||| c == '\u{205F}'
    ||| c == '\u{3000}'
}

fn space(c: char) -> (r: bool)
    ensures
        r == is_space(c),
{
    ('\u{9}' <= c && c <= '\u{D}') || c == ' ' || c == '\u{85}' || c == '\u{A0}' || c == '\u{1680}'
        || ('\u{2000}' <= c && c <= '\u{200A}') || c == '\u{2028}' || c == '\u{2029}' || c
        == '\u{202F}' || c == '\u{205F}' || c == '\u{3000}'
}

/// A text without white space at its end.
pub open spec fn trimmed_end(s: Seq<char>) -> Seq<char>
    decreases s.len(),
{
    if s.len() > 0 && is_space(s.last()) {
        trimmed_end(s.drop_last())
    } else {
        s
    }
}

/// A text without white space at its start.
pub open spec fn trimmed_start(s: Seq<char>) -> Seq<char>
    decreases s.len(),
{
    if s.len() > 0 && is_space(s[0]) {
        trimmed_start(s.drop_first())
    } else {
        s
    }
}

/// A text without white space at either end.
pub open spec fn trimmed(s: Seq<char>) -> Seq<char> {
    trimmed_end(trimmed_start(s))
}

/// The part of a text between its white space.
pub fn trim(chars: &[char]) -> (r: &[char])
    ensures
        r@ == trimmed(chars@),
{
    let mut from: usize = 0;
    assert(chars@.skip(0) =~= chars@);
    while from < chars.len() && space(chars[from])
        invariant
            from <= chars@.len(),
            trimmed_start(chars@) == trimmed_start(chars@.skip(from as int)),
        decreases chars@.len() - from,
    {
        assert(chars@.skip(from as int).drop_first() =~= chars@.skip(from + 1));
        from = from + 1;
    }
    assert(trimmed_start(chars@) == chars@.skip(from as int));
    let mut to: usize = chars.len();
    assert(chars@.subrange(from as int, to as int) =~= chars@.skip(from as int));
    while to > from && space(chars[to - 1])
        invariant
            from <= to <= chars@.len(),
            trimmed(chars@) == trimmed_end(chars@.subrange(from as int, to as int)),
        decreases to,
    {
        assert(chars@.subrange(from as int, to as int).drop_last() =~= chars@.subrange(
            from as int,
            to - 1,
        ));
        to = to - 1;
    }
    vstd::slice::slice_subrange(chars, from, to)
}

/// Decimal notation is read back as the number it writes: digits only, no zero in front
/// unless it stands alone.
pub proof fn law_decimal_round_trip(n: nat)
    ensures
        is_number(decimal(n)),
        number(decimal(n)) == n,
        decimal(n)[0] == '0' <==> n == 0,
        n <= u32::MAX ==> parsed_u32(decimal(n)) == Some(n as u32),
        n <= i32::MAX ==> parsed_i32(decimal(n)) == Some(n as i32),
        n <= 0x8000_0000 ==> parsed_i32(seq!['-'] + decimal(n)) == Some((-n) as i32),
    decreases n,
{
    let s = decimal(n);
    if n < 10 {
        assert(s.drop_last() =~= Seq::<char>::empty());
        assert(number(s.drop_last()) == 0);
        assert(s.last() as int == 48 + n);
    } else {
        law_decimal_round_trip(n / 10);
        let d = (n % 10) as int;
        assert(s.drop_last() =~= decimal(n / 10));
        assert(s.last() as int == 48 + d);
        assert forall|i: int| 0 <= i < s.len() implies is_digit(#[trigger] s[i]) by {
            if i < s.len() - 1 {
                assert(is_digit(decimal(n / 10)[i]));
            }
        }
        assert(s[0] == decimal(n / 10)[0]);
    }
    assert(is_digit(s[0]));
    assert((seq!['-'] + s).drop_first() =~= s);
}

/// A number is read digit by digit, whatever zeros stand in front, and one more digit makes
/// ten of it and adds the digit.
pub proof fn law_number_by_digits(s: Seq<char>, d: char)
    requires
        is_digit(d),
    ensures
        number(Seq::<char>::empty()) == 0,
        number(s.push(d)) == 10 * number(s) + (d as int - 48),
        is_number(s.push(d)) <==> s.len() == 0 || is_number(s),
{
    assert(s.push(d).drop_last() =~= s);
    if is_number(s.push(d)) {
        assert forall|i: int| 0 <= i < s.len() implies is_digit(#[trigger] s[i]) by {
            assert(is_digit(s.push(d)[i]));
        }
    }
}

/// A plus sign in front changes nothing, a minus sign the sign, and zeros in front do no harm.
pub proof fn law_signs(digits: Seq<char>)
    requires
        is_number(digits),
    ensures
        number(digits) <= u32::MAX ==> parsed_u32(digits) == Some(number(digits) as u32)
            && parsed_u32(seq!['+'] + digits) == Some(number(digits) as u32),
        number(digits) <= i32::MAX ==> parsed_i32(digits) == Some(number(digits) as i32)
            && parsed_i32(seq!['+'] + digits) == Some(number(digits) as i32),
        number(digits) <= 0x8000_0000 ==> parsed_i32(seq!['-'] + digits) == Some(
            (-number(digits)) as i32,
        ),
        number(seq!['0'] + digits) == number(digits),
{
    assert((seq!['+'] + digits).drop_first() =~= digits);
    assert((seq!['-'] + digits).drop_first() =~= digits);
    assert(is_digit(digits[0]));
    lemma_zero_in_front(digits);
}

proof fn lemma_zero_in_front(digits: Seq<char>)
    ensures
        number(seq!['0'] + digits) == number(digits),
    decreases digits.len(),
{
    let s = seq!['0'] + digits;
    if digits.len() > 0 {
        lemma_zero_in_front(digits.drop_last());
        assert(s.drop_last() =~= seq!['0'] + digits.drop_last());
    } else {
        assert(s.drop_last() =~= Seq::<char>::empty());
        assert(s.last() == '0');
        reveal_with_fuel(number, 2);
    }
}

/// What is no decimal number, but for one sign in front, or does not fit, is refused.
pub proof fn law_only_numbers_are_read(s: Seq<char>)
    ensures
        parsed_u32(s) is Some <==> exists|digits: Seq<char>| #[trigger]
            is_number(digits) && number(digits) <= 0xFFFF_FFFF && (s == digits || s == seq!['+']
                + digits),
        parsed_i32(s) is Some <==> exists|digits: Seq<char>| #[trigger]
            is_number(digits) && (number(digits) <= 0x7FFF_FFFF && (s == digits || s == seq!['+']
                + digits) || number(digits) <= 0x8000_0000 && s == seq!['-'] + digits),
{
    if s.len() > 0 {
        assert(s =~= seq![s[0]] + s.drop_first());
    }
    let rest = s.drop_first();
    if parsed_u32(s) is Some {
        if s[0] == '+' {
            assert(is_number(rest));
        } else {
            assert(is_number(s));
        }
    }
    if parsed_i32(s) is Some {
        if s[0] == '+' || s[0] == '-' {
            assert(is_number(rest));
        } else {
            assert(is_number(s));
        }
    }
    assert forall|digits: Seq<char>| #[trigger] is_number(digits) implies (s == seq!['+'] + digits
        ==> rest == digits && s[0] == '+') && (s == seq!['-'] + digits ==> rest == digits && s[0]
        == '-') && (s == digits ==> s[0] != '+' && s[0] != '-') by {
        assert((seq!['+'] + digits).drop_first() =~= digits);
        assert((seq!['-'] + digits).drop_first() =~= digits);
        assert(is_digit(digits[0]));
    }
}

/// Lower case differs only in the capital letters of ASCII, each of which becomes its small
/// letter, and lowering again changes nothing.
pub proof fn law_lowered(s: Seq<char>, i: int)
    requires
        0 <= i < s.len(),
    ensures
        lowered(s).len() == s.len(),
        'A' <= s[i] <= 'Z' ==> lowered(s)[i] as int - 'a' as int == s[i] as int - 'A' as int,
        !('A' <= s[i] <= 'Z') ==> lowered(s)[i] == s[i],
        lowered(lowered(s)) == lowered(s),
{
    assert(lowered(lowered(s)) =~= lowered(s));
}

/// Trimming takes white space off both ends and nothing else.
pub proof fn law_trimmed(s: Seq<char>)
    ensures
        exists|a: int, b: int|
            #![trigger s.subrange(a, b)]
            0 <= a <= b <= s.len() && trimmed(s) == s.subrange(a, b) && (forall|i: int|
                0 <= i < a ==> is_space(#[trigger] s[i])) && (forall|i: int|
                b <= i < s.len() ==> is_space(#[trigger] s[i])),
        trimmed(s).len() > 0 ==> !is_space(trimmed(s).first()) && !is_space(trimmed(s).last()),
{
    let a = lemma_trimmed_start(s);
    let t = trimmed_start(s);
    let b = lemma_trimmed_end(t);
    assert(trimmed(s) =~= s.subrange(a, a + b));
    assert forall|i: int| a + b <= i < s.len() implies is_space(#[trigger] s[i]) by {
        assert(is_space(t[i - a]));
    }
}

proof fn lemma_trimmed_start(s: Seq<char>) -> (a: int)
    ensures
        0 <= a <= s.len(),
        trimmed_start(s) == s.skip(a),
        forall|i: int| 0 <= i < a ==> is_space(#[trigger] s[i]),
        a < s.len() ==> !is_space(s[a]),
    decreases s.len(),
{
    if s.len() > 0 && is_space(s[0]) {
        let t = s.drop_first();
        let a = lemma_trimmed_start(t);
        assert(t.skip(a) =~= s.skip(a + 1));
        assert forall|i: int| 0 <= i < a + 1 implies is_space(#[trigger] s[i]) by {
            if i > 0 {
                assert(is_space(t[i - 1]));
            }
        }
        if a + 1 < s.len() {
            assert(t[a] == s[a + 1]);
        }
        a + 1
    } else {
        assert(s.skip(0) =~= s);
        0
    }
}

proof fn lemma_trimmed_end(s: Seq<char>) -> (b: int)
    ensures
        0 <= b <= s.len(),
        trimmed_end(s) == s.take(b),
        forall|i: int| b <= i < s.len() ==> is_space(#[trigger] s[i]),
        b > 0 ==> !is_space(s[b - 1]),
    decreases s.len(),
{
    if s.len() > 0 && is_space(s.last()) {
        let t = s.drop_last();
        let b = lemma_trimmed_end(t);
        assert(t.take(b) =~= s.take(b));
        assert forall|i: int| b <= i < s.len() implies is_space(#[trigger] s[i]) by {
            if i < t.len() {
                assert(is_space(t[i]));
            }
        }
        b
    } else {
        assert(s.take(s.len() as int) =~= s);
        s.len() as int
    }
}

/// The text spells the word, in small or capital letters.
pub open spec fn any_case(s: Seq<char>, word: Seq<char>) -> bool {
    s.len() == word.len() && forall|i: int|
        0 <= i < word.len() ==> #[trigger] s[i] == word[i] || ('a' <= word[i] <= 'z' && s[i] as int
            == word[i] as int - 32)
}

/// A word without capitals is found in lower case exactly where the text spells it, in small
/// or capital letters.
pub proof fn law_any_case(s: Seq<char>, word: Seq<char>)
    requires
        forall|i: int| 0 <= i < word.len() ==> !('A' <= #[trigger] word[i] <= 'Z'),
    ensures
        lowered(s) == word <==> any_case(s, word),
{
    let l = lowered(s);
    if l == word {
        assert forall|i: int| 0 <= i < word.len() implies #[trigger] s[i] == word[i] || ('a'
            <= word[i] <= 'z' && s[i] as int == word[i] as int - 32) by {
            law_lowered(s, i);
            assert(l[i] == word[i]);
        }
    }
    if any_case(s, word) {
        assert forall|i: int| 0 <= i < word.len() implies l[i] == word[i] by {
            law_lowered(s, i);
            assert(s[i] == word[i] || s[i] as int == word[i] as int - 32);
        }
        assert(l =~= word);
    }
}

/// White space by code point.
pub proof fn law_spaces(c: char)
    ensures
        is_space(c) <==> {
            let n = c as int;
            9 <= n <= 13 || n == 32 || n == 133 || n == 160 || n == 5760 || 8192 <= n <= 8202 || n
                == 8232 || n == 8233 || n == 8239 || n == 8287 || n == 12288
        },
{
}

} // verus!
