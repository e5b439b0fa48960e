//! Which channels have a decoder running.

use vstd::prelude::*;

verus! {

/// The channels that blocks are being forwarded for.
///
/// A channel gets a decoder when its first block arrives. If a decoder does not take a
/// block, it is given up, and the channel gets a new one with its next block.
pub struct Router {
    active: Vec<u32>,
}

impl View for Router {
    type V = Set<u32>;

    closed spec fn view(&self) -> Set<u32> {
        Set::new(|ssrc: u32| self.active@.contains(ssrc))
    }
}

/// The channels with a decoder after a block of one has arrived.
pub open spec fn after_arrival(active: Set<u32>, ssrc: u32) -> Set<u32> {
    active.insert(ssrc)
}

/// The channels with a decoder after that of one was given up.
pub open spec fn after_giving_up(active: Set<u32>, ssrc: u32) -> Set<u32> {
    active.remove(ssrc)
}

impl Router {
    /// Each channel is listed once.
    pub closed spec fn wf(&self) -> bool {
        self.active@.no_duplicates()
    }

    /// No channel has a decoder yet.
    pub fn new() -> (r: Self)
        ensures
            r.wf(),
            r@ == Set::<u32>::empty(),
    {
        let r = Router { active: Vec::new() };
        assert(r@ =~= Set::<u32>::empty());
        r
    }

    fn position(&self, ssrc: u32) -> (r: Option<usize>)
        ensures
            r matches Some(i) ==> i < self.active@.len() && self.active@[i as int] == ssrc,
            r is Some <==> self@.contains(ssrc),
    {
        let mut i: usize = 0;
        while i < self.active.len()
            invariant
                i <= self.active@.len(),
                forall|j: int| 0 <= j < i ==> self.active@[j] != ssrc,
            decreases self.active@.len() - i,
        {
            if self.active[i] == ssrc {
                return Some(i);
            }
            i = i + 1;
        }
        None
    }

    /// A block has arrived. True if a decoder must be started for its channel first.
    pub fn arrived(&mut self, ssrc: u32) -> (r: bool)
        requires
            old(self).wf(),
        ensures
            final(self).wf(),
            r == !old(self)@.contains(ssrc),
            final(self)@ == old(self)@.insert(ssrc),
            final(self)@ == after_arrival(old(self)@, ssrc),
    {
        let ghost before = self.active@;
        match self.position(ssrc) {
            Some(_) => {
                assert(self@ =~= old(self)@.insert(ssrc));
                false
            },
            None => {
                self.active.push(ssrc);
                proof {
                    assert forall|x: u32| self.active@.contains(x) == (before.contains(x) || x
                        == ssrc) by {
                        if before.contains(x) {
                            let i = choose|i: int| 0 <= i < before.len() && before[i] == x;
                            assert(self.active@[i] == x);
                        }
                        if x == ssrc {
                            assert(self.active@[before.len() as int] == x);
                        }
                    }
                    assert(self@ =~= old(self)@.insert(ssrc));
                    assert(!before.contains(ssrc));
                }
                true
            },
        }
    }

    /// The channel's decoder did not take its block: give it up.
    pub fn give_up(&mut self, ssrc: u32)
        requires
            old(self).wf(),
        ensures
            final(self).wf(),
            final(self)@ == old(self)@.remove(ssrc),
            final(self)@ == after_giving_up(old(self)@, ssrc),
    {
        let ghost before = self.active@;
        match self.position(ssrc) {
            Some(i) => {
                self.active.remove(i);
                proof {
                    let after = self.active@;
                    assert(after =~= before.remove(i as int));
                    assert forall|x: u32|
                        after.contains(x) == (before.contains(x) && x != ssrc) by {
                        if after.contains(x) {
                            let j = choose|j: int| 0 <= j < after.len() && after[j] == x;
                            let k = if j < i {
                                j
                            } else {
                                j + 1
                            };
                            assert(before[k] == x);
                            assert(k != i);
                        }
                        if before.contains(x) && x != ssrc {
                            let k = choose|k: int| 0 <= k < before.len() && before[k] == x;
                            let j = if k < i {
                                k
                            } else {
                                k - 1
                            };
                            assert(after[j] == x);
                        }
                    }
                    assert(self@ =~= old(self)@.remove(ssrc));
                }
            },
            None => {
                assert(self@ =~= old(self)@.remove(ssrc));
            },
        }
    }
}

/// A channel whose decoder was given up gets a new one with its next block, and no other
/// channel is affected.
pub proof fn law_respawn(active: Set<u32>, ssrc: u32, other: u32)
    requires
        other != ssrc,
    ensures
        !active.insert(ssrc).remove(ssrc).contains(ssrc),
        active.insert(ssrc).remove(ssrc).contains(other) == active.contains(other),
{
}

/// Blocks of a channel start one decoder, however many arrive; giving one up twice is giving
/// it up once; and neither touches another channel.
pub proof fn law_one_decoder_per_channel(active: Set<u32>, ssrc: u32, other: u32)
    requires
        other != ssrc,
    ensures
        after_arrival(active, ssrc).contains(ssrc),
        after_arrival(after_arrival(active, ssrc), ssrc) == after_arrival(active, ssrc),
        !after_giving_up(active, ssrc).contains(ssrc),
        after_giving_up(after_giving_up(active, ssrc), ssrc) == after_giving_up(active, ssrc),
        after_arrival(active, ssrc).contains(other) == active.contains(other),
        after_giving_up(active, ssrc).contains(other) == active.contains(other),
{
    assert(after_arrival(after_arrival(active, ssrc), ssrc) =~= after_arrival(active, ssrc));
    assert(after_giving_up(after_giving_up(active, ssrc), ssrc) =~= after_giving_up(active, ssrc));
}

} // verus!
