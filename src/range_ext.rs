//! Whether two half-open ranges overlap.

use vstd::prelude::*;
use std::ops::Range;

verus! {

pub trait RangeExt {
    spec fn overlaps(&self, b: &Self) -> bool;

    fn intersect(&self, b: &Self) -> (r: bool)
        ensures
            r == self.overlaps(b),
    ;
}

impl RangeExt for Range<usize> {
    /// Some index lies in both ranges, or, for empty ranges, neither ends
    /// before the other starts.
    open spec fn overlaps(&self, b: &Self) -> bool {
        !(self.start >= b.end || b.start >= self.end)
    }

    fn intersect(&self, b: &Self) -> (r: bool) {
        !(self.start >= b.end || b.start >= self.end)
    }
}

} // verus!
