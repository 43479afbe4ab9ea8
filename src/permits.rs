//! Counting permits for a resource of limited capacity.
use vstd::prelude::*;

verus! {

/// The permits still free. Waiting for a permit is left to the caller,
/// which retries after a `release`.
pub struct PermitManager {
    permits: usize,
}

impl PermitManager {
    pub closed spec fn available(&self) -> nat {
        self.permits as nat
    }

    /// A manager with `max_permits` free permits.
    pub fn new(max_permits: usize) -> (r: PermitManager)
        ensures
            r.available() == max_permits,
    {
        PermitManager { permits: max_permits }
    }

    /// Takes a permit if one is free.
    pub fn try_acquire(&mut self) -> (r: bool)
        ensures
            r == (old(self).available() > 0),
            r ==> final(self).available() == old(self).available() - 1,
            !r ==> final(self).available() == old(self).available(),
    {
        if self.permits == 0 {
            false
        } else {
            self.permits = self.permits - 1;
            true
        }
    }

    /// Gives a permit back.
    pub fn release(&mut self)
        requires
            old(self).available() < usize::MAX,
        ensures
            final(self).available() == old(self).available() + 1,
    {
        self.permits = self.permits + 1;
    }

    /// Number of free permits.
    pub fn available_permits(&self) -> (r: usize)
        ensures
            r == self.available(),
    {
        self.permits
    }
}

} // verus!
