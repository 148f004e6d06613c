//! The trail: the column chosen in each row, kept so that a choice can be
//! undone.

use vstd::prelude::*;
use crate::counters::{bumped, InstrumentationCounters};

verus! {

/// One cell per row of the board, and an unused cell 0 in front. The cell of
/// row `l` holds the column chosen for that row. Every read and every write
/// is counted as one memory access.
#[derive(Debug)]
pub struct PlacementTrail {
    cells: Vec<usize>,
}

impl View for PlacementTrail {
    type V = Seq<int>;

    /// The cells as a sequence of columns, cell 0 included.
    closed spec fn view(&self) -> Seq<int> {
        Seq::new(self.cells@.len(), |i: int| self.cells@[i] as int)
    }
}

impl PlacementTrail {
    /// Level `l` names a row of the board that the trail was made for.
    pub open spec fn has_level(&self, l: int) -> bool {
        1 <= l < self@.len()
    }

    /// A trail for a board of size `n`, every cell zero.
    pub fn new(n: usize) -> (trail: Self)
        requires
            n < usize::MAX,
        ensures
            trail@.len() == n + 1,
            forall|i: int| 0 <= i <= n ==> trail@[i] == 0,
    {
        let mut cells: Vec<usize> = Vec::new();
        let mut i: usize = 0;
        while i <= n
            invariant
                n < usize::MAX,
                i <= n + 1,
                cells@.len() == i,
                forall|j: int| 0 <= j < i ==> cells@[j] == 0,
            decreases n + 1 - i,
        {
            cells.push(0);
            i += 1;
        }
        PlacementTrail { cells }
    }

    /// Records `col` as the column chosen for row `level`. One memory access.
    pub fn set(&mut self, level: usize, col: usize, counters: &mut InstrumentationCounters)
        requires
            old(self).has_level(level as int),
        ensures
            final(self)@ == old(self)@.update(level as int, col as int),
            final(counters).memory_access_count == bumped(
                old(counters).memory_access_count as nat,
            ),
            final(counters).solution_count == old(counters).solution_count,
    {
        counters.record_access();
        self.cells[level] = col;
        assert(self@ =~= old(self)@.update(level as int, col as int));
    }

    /// The column recorded for row `level`. One memory access.
    pub fn get(&self, level: usize, counters: &mut InstrumentationCounters) -> (col: usize)
        requires
            self.has_level(level as int),
        ensures
            col == self@[level as int],
            final(counters).memory_access_count == bumped(
                old(counters).memory_access_count as nat,
            ),
            final(counters).solution_count == old(counters).solution_count,
    {
        counters.record_access();
        self.cells[level]
    }

    /// The column recorded for row `level`, read without counting: for
    /// inspection from outside the search.
    pub fn peek(&self, level: usize) -> (col: usize)
        requires
            self.has_level(level as int),
        ensures
            col == self@[level as int],
    {
        self.cells[level]
    }
}

} // verus!
