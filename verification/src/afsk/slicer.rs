//! A bank of slicers, one bit clock each.

use vstd::prelude::*;

use crate::afsk::dpll::{DemodBit, Dpll};

verus! {

/// Bits that the first `n` loops sample when the slicers read `marks`.
pub open spec fn sampled(dplls: Seq<Dpll>, marks: Seq<bool>, n: int) -> Seq<DemodBit>
    decreases n,
{
    if n <= 0 {
        Seq::empty()
    } else if dplls[n - 1].samples() {
        sampled(dplls, marks, n - 1).push(
            DemodBit { bit: marks[n - 1], slice: dplls[n - 1].slice },
        )
    } else {
        sampled(dplls, marks, n - 1)
    }
}

/// Number of loops that have a reading.
pub open spec fn driven(dplls: Seq<Dpll>, marks: Seq<bool>) -> int {
    if dplls.len() <= marks.len() {
        dplls.len() as int
    } else {
        marks.len() as int
    }
}

/// The loops after a sample: those that have a reading have taken it.
pub open spec fn bank_after(dplls: Seq<Dpll>, marks: Seq<bool>) -> Seq<Dpll> {
    Seq::new(
        dplls.len(),
        |i: int|
            if i < marks.len() {
                dplls[i].after(marks[i])
            } else {
                dplls[i]
            },
    )
}

/// One loop per slicer. All slicers see the same tone levels and compare them with a
/// gain of their own, so each reads mark or space for itself.
#[derive(Debug, Clone)]
pub struct SlicerBank {
    pub dplls: Vec<Dpll>,
}

impl SlicerBank {
    /// A bank of loops at phase zero, slicer `i` in position `i`.
    pub fn new(num_slicers: usize, baud: u32, sample_rate: u32) -> (r: Self)
        ensures
            r.dplls@.len() == num_slicers,
            forall|i: int|
                0 <= i < num_slicers ==> {
                    let d = #[trigger] r.dplls@[i];
                    &&& d.slice == i
                    &&& d.data_clock_pll == 0 && d.prev_d_c_pll == 0
                    &&& !d.prev_demod_data && !d.good_flag && !d.bad_flag && !d.data_detect
                    &&& d.good_hist == 0 && d.bad_hist == 0 && d.score == 0
                    &&& sample_rate > 0 ==> d.step == crate::afsk::oscillator::phase_step(
                        baud,
                        sample_rate,
                    ) % 0x1_0000_0000
                    &&& sample_rate == 0 ==> d.step == if baud == 0 {
                        0
                    } else {
                        u32::MAX
                    }
                },
    {
        let mut dplls: Vec<Dpll> = Vec::new();
        let mut i: usize = 0;
        while i < num_slicers
            invariant
                i <= num_slicers,
                dplls@.len() == i,
                forall|i: int|
                    0 <= i < dplls@.len() ==> {
                        let d = #[trigger] dplls@[i];
                        &&& d.slice == i
                        &&& d.data_clock_pll == 0 && d.prev_d_c_pll == 0
                        &&& !d.prev_demod_data && !d.good_flag && !d.bad_flag && !d.data_detect
                        &&& d.good_hist == 0 && d.bad_hist == 0 && d.score == 0
                        &&& sample_rate > 0 ==> d.step == crate::afsk::oscillator::phase_step(
                            baud,
                            sample_rate,
                        ) % 0x1_0000_0000
                        &&& sample_rate == 0 ==> d.step == if baud == 0 {
                            0
                        } else {
                            u32::MAX
                        }
                    },
            decreases num_slicers - i,
        {
            dplls.push(Dpll::new(baud, sample_rate, i));
            i = i + 1;
        }
        SlicerBank { dplls }
    }

    /// Drive the loops by one audio sample.
    ///
    /// `marks[i]` is what slicer `i` reads. Returns the bits that are sampled, in the
    /// order of the slicers.
    pub fn process(&mut self, marks: &[bool]) -> (r: Vec<DemodBit>)
        ensures
            final(self).dplls@ == Seq::new(
                old(self).dplls@.len(),
                |i: int|
                    if i < marks@.len() {
                        old(self).dplls@[i].after(marks@[i])
                    } else {
                        old(self).dplls@[i]
                    },
            ),
            final(self).dplls@ == bank_after(old(self).dplls@, marks@),
            r@ == sampled(old(self).dplls@, marks@, driven(old(self).dplls@, marks@)),
    {
        let ghost start = self.dplls@;
        let mut out: Vec<DemodBit> = Vec::new();
        let mut i: usize = 0;
        while i < self.dplls.len() && i < marks.len()
            invariant
                i <= start.len(),
                i <= marks@.len(),
                self.dplls@.len() == start.len(),
                forall|j: int|
                    0 <= j < i ==> #[trigger] self.dplls@[j] == start[j].after(marks@[j]),
                forall|j: int| i <= j < start.len() ==> #[trigger] self.dplls@[j] == start[j],
                out@ == sampled(start, marks@, i as int),
            decreases start.len() - i,
        {
            let mut d: Dpll = self.dplls[i];
            let bit: Option<DemodBit> = d.step(marks[i]);
            self.dplls.set(i, d);
            match bit {
                Some(b) => out.push(b),
                None => {},
            }
            i = i + 1;
        }
        assert(self.dplls@ =~= Seq::new(
            start.len(),
            |i: int|
                if i < marks@.len() {
                    start[i].after(marks@[i])
                } else {
                    start[i]
                },
        ));
        assert(self.dplls@ =~= bank_after(start, marks@));
        out
    }
}

/// A bank brings a bit of every slicer whose loop samples one and of no other: the value is
/// what that slicer reads, the tag is its own, and the bits stand in the order of the
/// slicers. Slicers without a reading bring none.
pub proof fn law_bits_of_the_bank(dplls: Seq<Dpll>, marks: Seq<bool>)
    requires
        forall|i: int| 0 <= i < dplls.len() ==> (#[trigger] dplls[i]).slice == i,
    ensures
        ({
            let out = sampled(dplls, marks, driven(dplls, marks));
            &&& forall|k: int|
                0 <= k < out.len() ==> {
                    let b = #[trigger] out[k];
                    b.slice < dplls.len() && b.slice < marks.len()
                        && dplls[b.slice as int].samples() && b.bit == marks[b.slice as int]
                }
            &&& forall|j: int, k: int|
                0 <= j < k < out.len() ==> (#[trigger] out[j]).slice < (#[trigger] out[k]).slice
            &&& forall|i: int|
                0 <= i < dplls.len() && i < marks.len() && (#[trigger] dplls[i]).samples()
                    ==> exists|k: int| 0 <= k < out.len() && (#[trigger] out[k]).slice == i
        }),
{
    lemma_sampled(dplls, marks, driven(dplls, marks));
}

proof fn lemma_sampled(dplls: Seq<Dpll>, marks: Seq<bool>, n: int)
    requires
        forall|i: int| 0 <= i < dplls.len() ==> (#[trigger] dplls[i]).slice == i,
        0 <= n <= dplls.len(),
        n <= marks.len(),
    ensures
        ({
            let out = sampled(dplls, marks, n);
            &&& forall|k: int|
                0 <= k < out.len() ==> {
                    let b = #[trigger] out[k];
                    b.slice < n && dplls[b.slice as int].samples() && b.bit
                        == marks[b.slice as int]
                }
            &&& forall|j: int, k: int|
                0 <= j < k < out.len() ==> (#[trigger] out[j]).slice < (#[trigger] out[k]).slice
            &&& forall|i: int|
                0 <= i < n && (#[trigger] dplls[i]).samples() ==> exists|k: int|
                    0 <= k < out.len() && (#[trigger] out[k]).slice == i
        }),
    decreases n,
{
    if n > 0 {
        lemma_sampled(dplls, marks, n - 1);
        let before = sampled(dplls, marks, n - 1);
        let out = sampled(dplls, marks, n);
        assert(dplls[n - 1].slice == n - 1);
        assert forall|i: int| 0 <= i < n && (#[trigger] dplls[i]).samples() implies exists|k: int|
            0 <= k < out.len() && (#[trigger] out[k]).slice == i by {
            if i < n - 1 {
                let k = choose|k: int| 0 <= k < before.len() && (#[trigger] before[k]).slice == i;
                assert(out[k].slice == i);
            } else {
                assert(out[before.len() as int].slice == i);
            }
        }
    }
}

/// Each loop takes its own reading and no other; a loop without one stands still.
pub proof fn law_loops_independent(dplls: Seq<Dpll>, marks: Seq<bool>, other: Seq<bool>, i: int)
    requires
        0 <= i < dplls.len(),
    ensures
        bank_after(dplls, marks).len() == dplls.len(),
        i < marks.len() ==> bank_after(dplls, marks)[i] == dplls[i].after(marks[i]),
        i >= marks.len() ==> bank_after(dplls, marks)[i] == dplls[i],
        i < marks.len() && i < other.len() && marks[i] == other[i] ==> bank_after(dplls, marks)[i]
            == bank_after(dplls, other)[i],
{
}

} // verus!
