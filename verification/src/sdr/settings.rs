//! Settings that are given as text.

use vstd::prelude::*;

use crate::sdr::device::Gain;
use crate::text;

verus! {

/// Fixed tuner gain in tenths of a dB unless another is given.
pub const DEFAULT_GAIN_TENTHS: i32 = 400;

/// A number that is given as text, or the default if it is not given or is no number.
pub open spec fn u32_setting(value: Option<Seq<char>>, default: u32) -> u32 {
    match value {
        Some(s) => match text::parsed_u32(s) {
            Some(n) => n,
            None => default,
        },
        None => default,
    }
}

/// A switch that is given as text.
pub open spec fn switched_on(value: Option<Seq<char>>) -> bool {
    match value {
        Some(s) => {
            let l = text::lowered(s);
            l == "1"@ || l == "on"@ || l == "true"@ || l == "yes"@
        },
        None => false,
    }
}

/// A gain that is given as text: the tuner's own control, or a number of tenths of a dB.
pub open spec fn gain_setting(value: Option<Seq<char>>) -> Gain {
    match value {
        Some(s) => if text::lowered(s) == "hw-agc"@ {
            Gain::HardwareAgc
        } else {
            match text::parsed_i32(s) {
                Some(n) => Gain::Manual(n),
                None => Gain::Manual(DEFAULT_GAIN_TENTHS),
            }
        },
        None => Gain::Manual(DEFAULT_GAIN_TENTHS),
    }
}

/// A gain is given that is neither a mode nor a number.
pub open spec fn gain_invalid(value: Option<Seq<char>>) -> bool {
    match value {
        Some(s) => text::lowered(s) != "hw-agc"@ && text::parsed_i32(s) is None,
        None => false,
    }
}

/// First comma at or after `i`, or the length.
pub open spec fn comma_at(s: Seq<char>, i: int) -> int
    decreases s.len() - i,
{
    if i >= s.len() || s[i] == ',' {
        i
    } else {
        comma_at(s, i + 1)
    }
}

/// The numbers in a comma-separated list. Entries that are no numbers are left out.
pub open spec fn numbers_in(s: Seq<char>) -> Seq<u32>
    decreases s.len(),
{
    let i = comma_at(s, 0);
    let first = match text::parsed_u32(text::trimmed(s.take(i))) {
        Some(n) => seq![n],
        None => Seq::<u32>::empty(),
    };
    if 0 <= i < s.len() {
        first + numbers_in(s.skip(i + 1))
    } else {
        first
    }
}

/// Read a number setting.
pub fn env_u32(value: Option<&str>, default: u32) -> (r: u32)
    ensures
        r == u32_setting(
            match value {
                Some(s) => Some(s@),
                None => None,
            },
            default,
        ),
{
    match value {
        Some(s) => match text::parse_u32(text::chars_of(s).as_slice()) {
            Some(n) => n,
            None => default,
        },
        None => default,
    }
}

/// Read a switch: `1`, `on`, `true` or `yes`, in any case, mean on.
pub fn env_bool(value: Option<&str>) -> (r: bool)
    ensures
        r == switched_on(
            match value {
                Some(s) => Some(s@),
                None => None,
            },
        ),
{
    match value {
        Some(s) => {
            let l = text::to_lower(s);
            text::spells(l.as_slice(), "1") || text::spells(l.as_slice(), "on") || text::spells(
                l.as_slice(),
                "true",
            ) || text::spells(l.as_slice(), "yes")
        },
        None => false,
    }
}

/// Read the gain setting. The second result is true if the text made no sense and the
/// default is used in its place.
pub fn parse_gain(value: Option<&str>) -> (r: (Gain, bool))
    ensures
        ({
            let v = match value {
                Some(s) => Some(s@),
                None => None,
            };
            r.0 == gain_setting(v) && r.1 == gain_invalid(v)
        }),
{
    match value {
        Some(s) => {
            if text::spells(text::to_lower(s).as_slice(), "hw-agc") {
                return (Gain::HardwareAgc, false);
            }
            match text::parse_i32(text::chars_of(s).as_slice()) {
                Some(n) => (Gain::Manual(n), false),
                None => (Gain::Manual(DEFAULT_GAIN_TENTHS), true),
            }
        },
        None => (Gain::Manual(DEFAULT_GAIN_TENTHS), false),
    }
}

proof fn lemma_comma_at(s: Seq<char>, i: int)
    requires
        0 <= i <= s.len(),
    ensures
        i <= comma_at(s, i) <= s.len(),
    decreases s.len() - i,
{
    if i < s.len() && s[i] != ',' {
        lemma_comma_at(s, i + 1);
    }
}

/// Read a comma-separated list of channel frequencies.
pub fn parse_channels(list: &str) -> (r: Vec<u32>)
    ensures
        r@ == numbers_in(list@),
{
    let chars = text::chars_of(list);
    let n: usize = chars.len();
    let mut r: Vec<u32> = Vec::new();
    let mut from: usize = 0;
    let mut more: bool = true;
    assert(chars@.skip(0) =~= chars@);
    assert(r@ + numbers_in(chars@) =~= numbers_in(chars@));
    while more
        invariant
            chars@ == list@,
            n == chars@.len(),
            from <= n,
            more ==> r@ + numbers_in(chars@.skip(from as int)) == numbers_in(list@),
            !more ==> r@ == numbers_in(list@),
        decreases n - from + (if more { 1int } else { 0 }),
    {
        let ghost rest = chars@.skip(from as int);
        let mut i: usize = from;
        while i < n && chars[i] != ','
            invariant
                n == chars@.len(),
                from <= i <= n,
                rest == chars@.skip(from as int),
                comma_at(rest, 0) == comma_at(rest, i - from),
            decreases n - i,
        {
            i = i + 1;
        }
        assert(comma_at(rest, 0) == i - from);
        let piece = vstd::slice::slice_subrange(chars.as_slice(), from, i);
        assert(piece@ =~= rest.take(i - from));
        let ghost before = r@;
        match text::parse_u32(text::trim(piece)) {
            Some(v) => r.push(v),
            None => {},
        }
        if i < n {
            assert(rest.skip(i - from + 1) =~= chars@.skip(i + 1));
            assert(r@ + numbers_in(chars@.skip(i + 1)) =~= before + numbers_in(rest));
            from = i + 1;
        } else {
            assert(r@ =~= before + numbers_in(rest));
            more = false;
        }
    }
    r
}

/// A number setting is the number that its text writes, and the default where there is no
/// text, or no number in it.
pub proof fn law_number_setting(n: u32, s: Seq<char>, default: u32)
    ensures
        u32_setting(Some(text::decimal(n as nat)), default) == n,
        u32_setting(None, default) == default,
        (exists|i: int| 0 <= i < s.len() && s[i] != '+' && !text::is_digit(#[trigger] s[i]))
            || s.len() == 0 ==> u32_setting(Some(s), default) == default,
{
    text::law_decimal_round_trip(n as nat);
    if exists|i: int| 0 <= i < s.len() && s[i] != '+' && !text::is_digit(#[trigger] s[i]) {
        let i = choose|i: int|
            0 <= i < s.len() && s[i] != '+' && !text::is_digit(#[trigger] s[i]);
        assert(!text::is_number(s));
        if i > 0 {
            assert(s.drop_first()[i - 1] == s[i]);
        }
        assert(s[0] == '+' ==> !text::is_number(s.drop_first()));
    }
}

/// A switch is on for `1`, `on`, `true` and `yes`, in small or capital letters, and for no
/// other text.
pub proof fn law_switch(s: Seq<char>)
    ensures
        switched_on(Some(s)) <==> s == seq!['1'] || text::any_case(s, seq!['o', 'n'])
            || text::any_case(s, seq!['t', 'r', 'u', 'e']) || text::any_case(
            s,
            seq!['y', 'e', 's'],
        ),
        !switched_on(None),
{
    reveal_strlit("1");
    reveal_strlit("on");
    reveal_strlit("true");
    reveal_strlit("yes");
    assert("1"@ =~= seq!['1']);
    assert("on"@ =~= seq!['o', 'n']);
    assert("true"@ =~= seq!['t', 'r', 'u', 'e']);
    assert("yes"@ =~= seq!['y', 'e', 's']);
    text::law_any_case(s, "1"@);
    text::law_any_case(s, "on"@);
    text::law_any_case(s, "true"@);
    text::law_any_case(s, "yes"@);
    if text::any_case(s, "1"@) {
        assert(s[0] == "1"@[0]);
        assert(s =~= seq!['1']);
    }
}

/// A gain is the number that its text writes, of either sign; the tuner's own control where
/// the text names that, in small or capital letters; and else 40 dB, which is worth a
/// warning only if there was a text.
pub proof fn law_gain_setting(n: i32, s: Seq<char>)
    ensures
        n >= 0 ==> gain_setting(Some(text::decimal(n as nat))) == Gain::Manual(n),
        n < 0 ==> gain_setting(Some(seq!['-'] + text::decimal((-n) as nat))) == Gain::Manual(n),
        gain_setting(None) == Gain::Manual(400),
        !gain_invalid(None),
        gain_setting(Some(s)) == Gain::HardwareAgc <==> text::any_case(
            s,
            seq!['h', 'w', '-', 'a', 'g', 'c'],
        ),
        gain_setting(Some(s)) != Gain::Auto,
        gain_invalid(Some(s)) <==> gain_setting(Some(s)) != Gain::HardwareAgc && text::parsed_i32(s)
            is None,
        gain_invalid(Some(s)) ==> gain_setting(Some(s)) == Gain::Manual(400),
{
    reveal_strlit("hw-agc");
    let agc = seq!['h', 'w', '-', 'a', 'g', 'c'];
    assert("hw-agc"@ =~= agc);
    text::law_any_case(s, agc);
    let m: nat = if n >= 0 {
        n as nat
    } else {
        (-n) as nat
    };
    text::law_decimal_round_trip(m);
    let plain = text::decimal(m);
    let signed = seq!['-'] + plain;
    text::law_any_case(plain, agc);
    text::law_any_case(signed, agc);
    assert(text::is_digit(plain[0]));
    if text::any_case(plain, agc) {
        assert(plain[0] == agc[0] || plain[0] as int == agc[0] as int - 32);
    }
    if text::any_case(signed, agc) {
        assert(signed[0] == agc[0] || signed[0] as int == agc[0] as int - 32);
    }
}

/// A list is read entry by entry: what stands before a comma and what stands behind it are
/// lists of their own, and an entry without a comma gives its number, if it is one, whatever
/// white space surrounds it.
pub proof fn law_list_by_entries(a: Seq<char>, b: Seq<char>)
    ensures
        numbers_in(a + seq![','] + b) == numbers_in(a) + numbers_in(b),
        !a.contains(',') ==> numbers_in(a) == match text::parsed_u32(text::trimmed(a)) {
            Some(n) => seq![n],
            None => Seq::<u32>::empty(),
        },
    decreases a.len(),
{
    let s = a + seq![','] + b;
    let i = comma_at(a, 0);
    lemma_comma_at(a, 0);
    lemma_comma_found(a, 0);
    lemma_comma_found(s, 0);
    lemma_comma_at(s, 0);
    let k = comma_at(s, 0);
    assert(k == i) by {
        if k < i {
            assert(s[k] == a[k]);
        }
        if i < k {
            assert(s[i] == ',');
        }
    }
    assert(s.take(i) =~= a.take(i));
    if i < a.len() {
        let rest = a.skip(i + 1);
        law_list_by_entries(rest, b);
        assert(s.skip(i + 1) =~= rest + seq![','] + b);
        assert(a[i] == ',');
        let first = match text::parsed_u32(text::trimmed(a.take(i))) {
            Some(n) => seq![n],
            None => Seq::<u32>::empty(),
        };
        assert(first + (numbers_in(rest) + numbers_in(b)) =~= first + numbers_in(rest)
            + numbers_in(b));
    } else {
        assert(a.take(i) =~= a);
        assert(s.skip(i + 1) =~= b);
    }
}

proof fn lemma_comma_found(s: Seq<char>, i: int)
    requires
        0 <= i <= s.len(),
    ensures
        comma_at(s, i) < s.len() ==> s[comma_at(s, i)] == ',',
        forall|j: int| i <= j < comma_at(s, i) ==> #[trigger] s[j] != ',',
    decreases s.len() - i,
{
    if i < s.len() && s[i] != ',' {
        lemma_comma_found(s, i + 1);
    }
}

} // verus!
