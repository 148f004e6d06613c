//! The two counters that a search reports: solutions found and trail accesses.

use vstd::prelude::*;

verus! {

/// The value a 64-bit counter shows after `x` increments from zero: the
/// counter stops at its largest value instead of wrapping.
pub open spec fn saturated(x: nat) -> nat {
    if x >= u64::MAX {
        u64::MAX as nat
    } else {
        x
    }
}

/// One more increment of a counter that shows `x`.
pub open spec fn bumped(x: nat) -> nat {
    if x < u64::MAX {
        x + 1
    } else {
        x
    }
}

/// Incrementing the counter is counting one more.
pub proof fn lemma_bumped_saturated(x: nat)
    ensures
        bumped(saturated(x)) == saturated(x + 1),
{
}

/// Solutions found and trail accesses made so far in one search. Both start
/// at zero and only grow, one at a time.
#[derive(Clone, Copy, Debug, PartialEq, Eq, Structural)]
pub struct InstrumentationCounters {
    pub solution_count: u64,
    pub memory_access_count: u64,
}

impl InstrumentationCounters {
    /// Fresh counters, both zero.
    pub fn new() -> (counters: Self)
        ensures
            counters.solution_count == 0,
            counters.memory_access_count == 0,
    {
        InstrumentationCounters { solution_count: 0, memory_access_count: 0 }
    }

    /// Counts one more solution.
    pub fn visit_solution(&mut self)
        ensures
            final(self).solution_count == bumped(old(self).solution_count as nat),
            final(self).memory_access_count == old(self).memory_access_count,
    {
        self.solution_count = self.solution_count.saturating_add(1);
    }

    /// Counts one more read or write of the trail.
    pub fn record_access(&mut self)
        ensures
            final(self).memory_access_count == bumped(old(self).memory_access_count as nat),
            final(self).solution_count == old(self).solution_count,
    {
        self.memory_access_count = self.memory_access_count.saturating_add(1);
    }
}

} // verus!
