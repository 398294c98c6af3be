use vstd::prelude::*;

verus! {

/// What an arriving party must do next.
#[derive(Clone, Copy, Debug, PartialEq, Eq, Structural)]
pub enum Arrival {
    /// Not everyone has arrived: block until the barrier's generation differs
    /// from `generation`.
    Wait { generation: u64 },
    /// This arrival tripped the barrier: wake everyone else and go on.
    Release,
}

/// The counters of a reusable barrier for a fixed number of parties: how many
/// parties have arrived in the current cycle, and how many times the barrier
/// has tripped (modulo 2^64).
#[derive(Clone, Copy, Debug, PartialEq, Eq, Structural)]
pub struct BarrierState {
    pub parties: usize,
    pub arrived: usize,
    pub generation: u64,
}

/// The generation that follows `g`.
pub open spec fn next_generation(g: u64) -> u64 {
    if g == u64::MAX {
        0
    } else {
        (g + 1) as u64
    }
}

/// The effect of one arrival: the state after it and what the arriving party
/// must do.
pub open spec fn arrive_spec(s: BarrierState) -> (BarrierState, Arrival) {
    if s.arrived + 1 == s.parties {
        (
            BarrierState { arrived: 0, generation: next_generation(s.generation), ..s },
            Arrival::Release,
        )
    } else {
        (
            BarrierState { arrived: (s.arrived + 1) as usize, ..s },
            Arrival::Wait { generation: s.generation },
        )
    }
}

/// The state after `k` further arrivals.
pub open spec fn after_arrivals(s: BarrierState, k: nat) -> BarrierState
    decreases k,
{
    if k == 0 {
        s
    } else {
        arrive_spec(after_arrivals(s, (k - 1) as nat)).0
    }
}

impl BarrierState {
    /// At least one party, and fewer parties waiting than are needed to trip.
    pub open spec fn wf(self) -> bool {
        self.parties >= 1 && self.arrived < self.parties
    }

    /// A barrier for `parties` parties with nobody waiting.
    pub fn new(parties: usize) -> (r: BarrierState)
        requires
            parties >= 1,
        ensures
            r.wf(),
            r == (BarrierState { parties, arrived: 0, generation: 0 }),
    {
        BarrierState { parties, arrived: 0, generation: 0 }
    }

    /// Records one arrival. The arrival that completes the quorum resets the
    /// count, moves the generation on and is told to release the others;
    /// every other arrival is told to wait on the current generation.
    pub fn arrive(&mut self) -> (a: Arrival)
        requires
            old(self).wf(),
        ensures
            (*final(self), a) == arrive_spec(*old(self)),
            final(self).wf(),
    {
        if self.arrived + 1 == self.parties {
            self.arrived = 0;
            self.generation = if self.generation == u64::MAX {
                0
            } else {
                self.generation + 1
            };
            Arrival::Release
        } else {
            self.arrived = self.arrived + 1;
            Arrival::Wait { generation: self.generation }
        }
    }

    /// Whether a party that was told to wait on `generation` may go on: the
    /// barrier has tripped since. A wake-up that finds this false is spurious.
    pub fn released(&self, generation: u64) -> (r: bool)
        ensures
            r == (self.generation != generation),
    {
        self.generation != generation
    }
}

proof fn lemma_partial_cycle(s: BarrierState, k: nat)
    requires
        s.wf(),
        s.arrived == 0,
        k < s.parties,
    ensures
        after_arrivals(s, k) == (BarrierState { arrived: k as usize, ..s }),
    decreases k,
{
    if k > 0 {
        lemma_partial_cycle(s, (k - 1) as nat);
    }
}

/// One cycle of a barrier for `p` parties, starting with nobody waiting. Each
/// of the first `p - 1` arrivals is told to wait on the current generation,
/// and until the `p`-th arrival the generation stays the same, so none of
/// them is released. The `p`-th arrival trips the barrier: it is told to
/// release, the generation moves on, which releases every waiting party, and
/// the count is back at zero, so the next cycle again takes exactly `p`
/// arrivals.
pub proof fn lemma_barrier_cycle(s: BarrierState)
    requires
        s.wf(),
        s.arrived == 0,
    ensures
        forall|k: nat|
            k + 1 < s.parties ==> #[trigger] arrive_spec(after_arrivals(s, k)).1 == (Arrival::Wait {
                generation: s.generation,
            }),
        forall|k: nat| k < s.parties ==> #[trigger] after_arrivals(s, k).generation == s.generation,
        arrive_spec(after_arrivals(s, (s.parties - 1) as nat)).1 == Arrival::Release,
        after_arrivals(s, s.parties as nat).generation != s.generation,
        after_arrivals(s, s.parties as nat) == (BarrierState {
            generation: next_generation(s.generation),
            ..s
        }),
        after_arrivals(s, s.parties as nat).wf(),
{
    assert forall|k: nat| k + 1 < s.parties implies #[trigger] arrive_spec(after_arrivals(s, k)).1
        == (Arrival::Wait { generation: s.generation }) by {
        lemma_partial_cycle(s, k);
    }
    assert forall|k: nat| k < s.parties implies #[trigger] after_arrivals(s, k).generation
        == s.generation by {
        lemma_partial_cycle(s, k);
    }
    lemma_partial_cycle(s, (s.parties - 1) as nat);
    assert(after_arrivals(s, s.parties as nat) == arrive_spec(
        after_arrivals(s, (s.parties - 1) as nat),
    ).0);
}

} // verus!
