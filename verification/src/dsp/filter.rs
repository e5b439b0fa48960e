//! Filter sizing.

use vstd::prelude::*;

verus! {

/// The smallest odd number that is not below `n`.
pub open spec fn odd_at_least(n: int) -> int {
    if n % 2 == 0 {
        n + 1
    } else {
        n
    }
}

fn make_odd(n: usize) -> (r: usize)
    ensures
        r == odd_at_least(n as int),
{
    if n % 2 == 0 {
        n + 1
    } else {
        n
    }
}

/// Number of taps of a filter that should span `raw` samples: forced odd, for symmetry,
/// and capped.
pub fn odd_taps(raw: usize, max_taps: usize) -> (r: usize)
    requires
        max_taps >= 1,
    ensures
        r == if odd_at_least(raw as int) <= odd_at_least(max_taps - 1) {
            odd_at_least(raw as int)
        } else {
            odd_at_least(max_taps - 1)
        },
{
    let odd: usize = make_odd(raw);
    let cap: usize = make_odd(max_taps - 1);
    if odd <= cap {
        odd
    } else {
        cap
    }
}

/// The number of taps grows with the span and never exceeds the cap: it is odd, at least the
/// span and at most one more wherever the cap allows, and else the largest odd number that
/// the cap allows.
pub proof fn law_taps(raw: usize, max_taps: usize, r: int)
    requires
        max_taps >= 1,
        r == if odd_at_least(raw as int) <= odd_at_least(max_taps - 1) {
            odd_at_least(raw as int)
        } else {
            odd_at_least(max_taps - 1)
        },
    ensures
        r % 2 == 1,
        r <= max_taps,
        raw <= r ==> r - 1 <= raw,
        raw > r ==> max_taps - 1 <= r,
{
}

} // verus!
