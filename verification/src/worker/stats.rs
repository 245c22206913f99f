//! How long things take, and which of them take too long.
use vstd::prelude::*;

verus! {

/// The durations of a number of operations, in milliseconds.
#[derive(Clone, Copy, PartialEq, Eq, Structural, Debug)]
pub struct LatencyStats {
    /// The number of operations.
    pub count: u64,
    /// How long they took together.
    pub total_ms: u64,
    /// The number of those that took too long.
    pub slow: u64,
}

impl LatencyStats {
    /// No operations.
    pub fn new() -> (s: Self)
        ensures
            s == (LatencyStats { count: 0, total_ms: 0, slow: 0 }),
    {
        LatencyStats { count: 0, total_ms: 0, slow: 0 }
    }

    /// The counts stay within the operations that were counted.
    pub open spec fn well_formed(self) -> bool {
        self.slow <= self.count
    }

    /// Counts an operation, and tells whether it took longer than `slow_above_ms`.
    pub fn record(&mut self, elapsed_ms: u64, slow_above_ms: u64) -> (is_slow: bool)
        requires
            old(self).well_formed(),
            old(self).count < u64::MAX,
            old(self).total_ms + elapsed_ms <= u64::MAX,
        ensures
            is_slow == (elapsed_ms > slow_above_ms),
            final(self).well_formed(),
            *final(self) == (LatencyStats {
                count: (old(self).count + 1) as u64,
                total_ms: (old(self).total_ms + elapsed_ms) as u64,
                slow: if elapsed_ms > slow_above_ms {
                    (old(self).slow + 1) as u64
                } else {
                    old(self).slow
                },
            }),
    {
        self.count = self.count + 1;
        self.total_ms = self.total_ms + elapsed_ms;
        let is_slow = elapsed_ms > slow_above_ms;
        if is_slow {
            self.slow = self.slow + 1;
        }
        is_slow
    }
}

} // verus!
