//! Half-open index ranges.

use vstd::prelude::*;

verus! {

/// A half-open range `[start, end)` of byte, cluster, run or line item
/// indices; which of them is meant follows from where the range stands.
#[derive(Clone, Copy, Debug, PartialEq, Eq, Structural)]
pub struct Span {
    pub start: usize,
    pub end: usize,
}

impl Span {
    /// The indices that the range holds: none where `end <= start`.
    pub open spec fn contains(&self, i: int) -> bool {
        self.start <= i < self.end
    }

    pub open spec fn spec_is_empty(&self) -> bool {
        self.start >= self.end
    }

    pub open spec fn spec_len(&self) -> usize {
        if self.start <= self.end {
            (self.end - self.start) as usize
        } else {
            0
        }
    }

    /// The range `[start, end)`.
    pub fn new(start: usize, end: usize) -> (r: Span)
        ensures
            r == (Span { start, end }),
    {
        Span { start, end }
    }

    /// Tells whether the range holds no index.
    #[verifier::when_used_as_spec(spec_is_empty)]
    pub fn is_empty(&self) -> (r: bool)
        ensures
            r == self.spec_is_empty(),
    {
        self.start >= self.end
    }

    /// The number of indices that the range holds.
    #[verifier::when_used_as_spec(spec_len)]
    pub fn len(&self) -> (r: usize)
        ensures
            r == self.spec_len(),
    {
        if self.start <= self.end {
            self.end - self.start
        } else {
            0
        }
    }
}

} // verus!
