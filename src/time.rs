//! Synthetic clock that bounds the work of one collector increment.
use vstd::prelude::*;

verus! {

/// Budget of an increment run when the call stack is empty.
pub const LONG_INCREMENT_LIMIT: usize = 1_000_000;
/// Budget of an increment run on allocation.
pub const SHORT_INCREMENT_LIMIT: usize = 50_000;

/// Counts work steps against a limit.
#[derive(Clone, Copy, Debug)]
pub struct BoundedTime {
    pub steps: usize,
    pub limit: usize,
}

impl BoundedTime {
    pub open spec fn wf(&self) -> bool {
        self.limit < usize::MAX
    }

    pub open spec fn is_over_spec(&self) -> bool {
        self.steps > self.limit
    }

    /// Steps left before the budget is over.
    pub open spec fn remaining(&self) -> nat {
        if self.steps > self.limit {
            0
        } else {
            (self.limit + 1 - self.steps) as nat
        }
    }

    pub fn new(limit: usize) -> (r: BoundedTime)
        requires
            limit < usize::MAX,
        ensures
            r.wf(),
            r.steps == 0,
            r.limit == limit,
    {
        BoundedTime { steps: 0, limit }
    }

    /// Count one step.
    pub fn tick(&mut self)
        requires
            old(self).wf(),
        ensures
            final(self).wf(),
            final(self).limit == old(self).limit,
            final(self).steps == if old(self).steps < usize::MAX { old(self).steps + 1 } else { old(self).steps as int },
            final(self).steps >= old(self).steps,
    {
        if self.steps < usize::MAX {
            self.steps = self.steps + 1;
        }
    }

    /// Count `amount` steps.
    pub fn advance(&mut self, amount: usize)
        requires
            old(self).wf(),
        ensures
            final(self).wf(),
            final(self).limit == old(self).limit,
            final(self).steps == if old(self).steps + amount <= usize::MAX {
                old(self).steps + amount
            } else {
                usize::MAX as int
            },
            final(self).steps >= old(self).steps,
    {
        if self.steps <= usize::MAX - amount {
            self.steps = self.steps + amount;
        } else {
            self.steps = usize::MAX;
        }
    }

    pub fn is_over(&self) -> (r: bool)
        ensures
            r == self.is_over_spec(),
    {
        self.steps > self.limit
    }
}

} // verus!
