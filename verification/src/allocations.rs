//! Counting allocations, for checks that a path performs only a known number
//! of them.

use vstd::prelude::*;

verus! {

/// How many allocations were made, and how many bytes they asked for. Both
/// wrap around.
#[derive(Clone, Copy, Debug, PartialEq, Eq, Structural)]
pub struct AllocStats {
    pub count: usize,
    pub bytes: usize,
}

/// The sum of two counts, wrapped around.
pub open spec fn wrapped(sum: int) -> int {
    if sum <= usize::MAX {
        sum
    } else {
        sum - usize::MAX - 1
    }
}

impl AllocStats {
    /// No allocations.
    pub fn zero() -> (r: Self)
        ensures
            r.count == 0,
            r.bytes == 0,
    {
        AllocStats { count: 0, bytes: 0 }
    }

    /// Counts an allocation of `size` bytes.
    pub fn record(&mut self, size: usize)
        ensures
            final(self).count == wrapped(old(self).count + 1),
            final(self).bytes == wrapped(old(self).bytes + size),
    {
        self.count = self.count.wrapping_add(1);
        self.bytes = self.bytes.wrapping_add(size);
    }

    /// The number of allocations, and of bytes.
    pub fn totals(&self) -> (r: (usize, usize))
        ensures
            r == (self.count, self.bytes),
    {
        (self.count, self.bytes)
    }
}

} // verus!
