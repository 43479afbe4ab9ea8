//! The bookkeeping of a cancelable latch: waiters are released with success
//! once a number of tasks have counted down, or at once when one task
//! cancels. Blocking until then is left to the caller.
use vstd::prelude::*;

verus! {

/// How a wait on a latch ended.
#[derive(Clone, Copy, Debug, PartialEq, Eq, Structural)]
pub enum WaitResult {
    Success,
    Timeout,
    Canceled,
}

pub struct LatchState {
    count: usize,
    canceled: bool,
}

impl LatchState {
    /// Tasks still to count down.
    pub closed spec fn remaining(&self) -> nat {
        self.count as nat
    }

    pub closed spec fn is_canceled(&self) -> bool {
        self.canceled
    }

    /// How a wait ends in this state, if it ends now.
    pub open spec fn outcome_spec(&self) -> Option<WaitResult> {
        if self.is_canceled() {
            Some(WaitResult::Canceled)
        } else if self.remaining() == 0 {
            Some(WaitResult::Success)
        } else {
            None
        }
    }

    /// A latch that waits for `count` tasks.
    pub fn new(count: usize) -> (r: LatchState)
        ensures
            r.remaining() == count,
            !r.is_canceled(),
    {
        LatchState { count, canceled: false }
    }

    /// One task ended well; counting below zero has no effect.
    pub fn count_down(&mut self)
        ensures
            final(self).remaining() == if old(self).remaining() > 0 {
                old(self).remaining() - 1
            } else {
                0
            },
            final(self).is_canceled() == old(self).is_canceled(),
    {
        if self.count > 0 {
            self.count = self.count - 1;
        }
    }

    /// One task failed: every wait ends as canceled from now on.
    pub fn cancel(&mut self)
        ensures
            final(self).remaining() == old(self).remaining(),
            final(self).is_canceled(),
    {
        self.canceled = true;
    }

    /// `Canceled` once canceled, else `Success` once every task counted
    /// down; `None` while a wait must go on.
    pub fn outcome(&self) -> (r: Option<WaitResult>)
        ensures
            r == self.outcome_spec(),
    {
        if self.canceled {
            Some(WaitResult::Canceled)
        } else if self.count == 0 {
            Some(WaitResult::Success)
        } else {
            None
        }
    }

    /// How a wait whose time ran out ends: as it would now, or `Timeout`.
    pub fn outcome_after_timeout(&self) -> (r: WaitResult)
        ensures
            r == match self.outcome_spec() {
                Some(w) => w,
                None => WaitResult::Timeout,
            },
    {
        match self.outcome() {
            Some(w) => w,
            None => WaitResult::Timeout,
        }
    }
}

} // verus!
