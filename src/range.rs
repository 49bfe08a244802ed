//! Half-open ranges of addresses or indices.
use vstd::prelude::*;

verus! {

/// The numbers from `lower` (inclusive) to `upper` (exclusive).
#[derive(Clone, Copy, Debug, PartialEq, Eq, Structural)]
pub struct Range {
    lower: usize,
    upper: usize,
}

impl Range {
    pub closed spec fn lower_spec(&self) -> int {
        self.lower as int
    }

    pub closed spec fn upper_spec(&self) -> int {
        self.upper as int
    }

    pub closed spec fn wf(&self) -> bool {
        self.lower <= self.upper
    }

    pub fn new(lower: usize, upper: usize) -> (r: Range)
        requires
            lower <= upper,
        ensures
            r.wf(),
            r.lower_spec() == lower,
            r.upper_spec() == upper,
    {
        Range { lower, upper }
    }

    pub fn lower(&self) -> (r: usize)
        ensures
            r == self.lower_spec(),
    {
        self.lower
    }

    pub fn upper(&self) -> (r: usize)
        ensures
            r == self.upper_spec(),
    {
        self.upper
    }

    /// Whether `value` lies in the range.
    pub fn includes(&self, value: usize) -> (r: bool)
        ensures
            r == (self.lower_spec() <= value < self.upper_spec()),
    {
        self.lower <= value && value < self.upper
    }
}

} // verus!
