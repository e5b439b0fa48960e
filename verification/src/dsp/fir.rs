//! Fixed-length sample history.

use vstd::prelude::*;

verus! {

/// The last so many samples, the most recent first.
///
/// A ring buffer: pushing a sample moves no others.
pub struct DelayLine<T> {
    buf: Vec<T>,
    /// Index of the most recent sample.
    head: usize,
}

impl<T> View for DelayLine<T> {
    type V = Seq<T>;

    closed spec fn view(&self) -> Seq<T> {
        self.buf@.skip(self.head as int) + self.buf@.take(self.head as int)
    }
}

impl<T: Copy> DelayLine<T> {
    /// What every operation keeps.
    pub closed spec fn wf(&self) -> bool {
        self.head < self.buf@.len()
    }

    /// A sound history is never empty.
    pub proof fn lemma_wf(&self)
        requires
            self.wf(),
        ensures
            self@.len() > 0,
    {
    }

    /// A history of `taps` samples that are all `zero`.
    pub fn new(taps: usize, zero: T) -> (r: Self)
        requires
            taps > 0,
        ensures
            r.wf(),
            r@ == Seq::new(taps as nat, |i: int| zero),
    {
        let mut buf: Vec<T> = Vec::new();
        while buf.len() < taps
            invariant
                buf@.len() <= taps,
                forall|i: int| 0 <= i < buf@.len() ==> buf@[i] == zero,
            decreases taps - buf@.len(),
        {
            buf.push(zero);
        }
        let r = DelayLine { buf, head: 0 };
        assert(r@ =~= Seq::new(taps as nat, |i: int| zero));
        r
    }

    /// Put a new sample in front and drop the oldest.
    pub fn push(&mut self, val: T)
        requires
            old(self).wf(),
        ensures
            final(self).wf(),
            final(self)@ == seq![val] + old(self)@.drop_last(),
            final(self)@ == pushed(old(self)@, seq![val]),
    {
        let ghost before = self@;
        let n: usize = self.buf.len();
        self.head = if self.head == 0 {
            n - 1
        } else {
            self.head - 1
        };
        self.buf.set(self.head, val);
        assert(self@ =~= seq![val] + before.drop_last());
        proof {
            assert(seq![val].drop_last() =~= Seq::<T>::empty());
            reveal_with_fuel(pushed, 2);
        }
    }

    /// The samples as two runs: the newer ones, then the older ones.
    pub fn segments(&self) -> (r: (&[T], &[T]))
        requires
            self.wf(),
        ensures
            r.0@ + r.1@ == self@,
            r.0@.len() > 0,
    {
        let all = self.buf.as_slice();
        let newer = vstd::slice::slice_subrange(all, self.head, all.len());
        let older = vstd::slice::slice_subrange(all, 0, self.head);
        assert(newer@ + older@ =~= self@);
        (newer, older)
    }
}

/// After as many pushes as the line is long, it holds exactly those samples, the last
/// one first.
pub proof fn law_history<T>(line: Seq<T>, samples: Seq<T>)
    requires
        line.len() == samples.len(),
    ensures
        pushed(line, samples) == samples.reverse(),
{
    lemma_pushed(line, samples);
    assert(samples.reverse() + line.take(0) =~= samples.reverse());
}

/// A line after pushes, first sample first.
pub open spec fn pushed<T>(line: Seq<T>, samples: Seq<T>) -> Seq<T>
    decreases samples.len(),
{
    if samples.len() == 0 {
        line
    } else {
        seq![samples.last()] + pushed(line, samples.drop_last()).drop_last()
    }
}

proof fn lemma_pushed<T>(line: Seq<T>, samples: Seq<T>)
    requires
        samples.len() <= line.len(),
    ensures
        pushed(line, samples) == samples.reverse() + line.take(line.len() - samples.len()),
    decreases samples.len(),
{
    if samples.len() > 0 {
        lemma_pushed(line, samples.drop_last());
        assert(pushed(line, samples) =~= samples.reverse() + line.take(
            line.len() - samples.len(),
        ));
    } else {
        assert(samples.reverse() + line.take(line.len() as int) =~= line);
    }
}

/// Of fewer samples than the line is long the last stands first, and the newest of what the
/// line held before stand behind them. The line keeps its length, and it does not matter
/// how the samples are split.
pub proof fn law_pushes<T>(line: Seq<T>, samples: Seq<T>, more: Seq<T>)
    requires
        line.len() > 0,
    ensures
        pushed(line, samples).len() == line.len(),
        pushed(line, samples + more) == pushed(pushed(line, samples), more),
        samples.len() <= line.len() ==> pushed(line, samples) == samples.reverse() + line.take(
            line.len() - samples.len(),
        ),
    decreases samples.len() + more.len(),
{
    if samples.len() <= line.len() {
        lemma_pushed(line, samples);
    }
    if more.len() > 0 {
        law_pushes(line, samples, more.drop_last());
        assert((samples + more).drop_last() =~= samples + more.drop_last());
    } else {
        assert(samples + more =~= samples);
        if samples.len() > 0 {
            law_pushes(line, samples.drop_last(), more);
        }
    }
}

} // verus!
