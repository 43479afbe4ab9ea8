//! The bookkeeping of a reusable barrier: a fixed number of parties arrive,
//! the last one to arrive releases the others, and the barrier starts over.
//! Blocking until the release is left to the caller.
use vstd::prelude::*;

verus! {

/// What an arriving party must do.
#[derive(Clone, Copy, Debug, PartialEq, Eq, Structural)]
pub enum Arrival {
    /// Wait until the generation is no longer this one.
    Wait(u64),
    /// This party completed the generation: wake the others and go on.
    Release,
}

pub open spec fn next_generation(g: u64) -> u64 {
    if g < u64::MAX {
        (g + 1) as u64
    } else {
        0
    }
}

pub struct BarrierState {
    parties: usize,
    count: usize,
    generation: u64,
}

impl BarrierState {
    pub closed spec fn parties_spec(&self) -> nat {
        self.parties as nat
    }

    /// Parties still expected in the current generation.
    pub closed spec fn missing(&self) -> nat {
        self.count as nat
    }

    pub closed spec fn generation_spec(&self) -> u64 {
        self.generation
    }

    pub open spec fn wf(&self) -> bool {
        1 <= self.missing() <= self.parties_spec()
    }

    /// A barrier for `parties` parties (at least one), none arrived yet.
    pub fn new(parties: usize) -> (r: BarrierState)
        requires
            parties > 0,
        ensures
            r.wf(),
            r.parties_spec() == parties,
            r.missing() == parties,
            r.generation_spec() == 0,
    {
        BarrierState { parties, count: parties, generation: 0 }
    }

    /// Records one arrival. The last party of a generation gets `Release`,
    /// which starts the next generation with every party missing again; the
    /// others get `Wait` with the generation they must see end.
    pub fn arrive(&mut self) -> (r: Arrival)
        requires
            old(self).wf(),
        ensures
            final(self).wf(),
            final(self).parties_spec() == old(self).parties_spec(),
            old(self).missing() == 1 ==> r == Arrival::Release && final(self).missing()
                == old(self).parties_spec() && final(self).generation_spec() == next_generation(
                old(self).generation_spec(),
            ),
            old(self).missing() > 1 ==> r == Arrival::Wait(old(self).generation_spec())
                && final(self).missing() == old(self).missing() - 1
                && final(self).generation_spec() == old(self).generation_spec(),
    {
        if self.count == 1 {
            self.count = self.parties;
            self.generation = if self.generation < u64::MAX {
                self.generation + 1
            } else {
                0
            };
            Arrival::Release
        } else {
            self.count = self.count - 1;
            Arrival::Wait(self.generation)
        }
    }

    /// Whether a party told to wait for generation `g` may go on.
    pub fn released(&self, g: u64) -> (r: bool)
        ensures
            r == (self.generation_spec() != g),
    {
        self.generation != g
    }
}

} // verus!
