//! Ranges of Unicode codepoints.

use vstd::prelude::*;

verus! {

/// An inclusive range of codepoints; it is empty when `end < start`.
#[derive(Clone, Copy, Debug, PartialEq, Eq, Structural)]
pub struct CodepointRange {
    pub start: u32,
    pub end: u32,
}

impl CodepointRange {
    /// How many codepoints the range holds.
    pub open spec fn count(self) -> int {
        if self.end >= self.start {
            self.end - self.start + 1
        } else {
            0
        }
    }

    /// The codepoints of the range, in ascending order.
    pub open spec fn codepoints(self) -> Seq<int> {
        Seq::new(self.count() as nat, |index: int| self.start + index)
    }

    /// The range from `start` through `end`.
    pub fn new(start: u32, end: u32) -> (range: CodepointRange)
        ensures
            range == (CodepointRange { start, end }),
    {
        CodepointRange { start, end }
    }

    /// How many codepoints the range holds.
    pub fn len(&self) -> (count: u64)
        ensures
            count as int == self.count(),
    {
        if self.end >= self.start {
            (self.end - self.start) as u64 + 1
        } else {
            0
        }
    }
}

/// The codepoints of all of `ranges`, in order.
pub open spec fn codepoints(ranges: Seq<CodepointRange>) -> Seq<int>
    decreases ranges.len(),
{
    if ranges.len() == 0 {
        Seq::empty()
    } else {
        codepoints(ranges.drop_last()) + ranges.last().codepoints()
    }
}

} // verus!
