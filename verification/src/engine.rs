//! The search engine: the state machine in executable form, with its
//! registers, its trail and its counters.

use vstd::prelude::*;
use crate::counters::{saturated, InstrumentationCounters};
use crate::machine::{
    SearchState, Step, lemma_initial_inv, lemma_next_preserves_inv, lemma_next_decreases,
    lemma_finished_counts,
};
use crate::census::{nodes, solutions};
use crate::registers::{ConfigurationError, ConstraintRegisters, MAX_BOARD_SIZE};
use crate::trail::PlacementTrail;

verus! {

/// One search for the placements of `n` non-attacking queens on an `n`-board.
/// The engine owns its registers, its trail and its counters; nothing is
/// shared between engines.
#[derive(Debug)]
pub struct SearchEngine {
    n: usize,
    level: usize,
    trial: usize,
    step: Step,
    registers: ConstraintRegisters,
    trail: PlacementTrail,
    counters: InstrumentationCounters,
}

impl View for SearchEngine {
    type V = SearchState;

    /// The engine's state as a state of the abstract machine.
    closed spec fn view(&self) -> SearchState {
        SearchState {
            n: self.n as nat,
            step: self.step,
            level: self.level as nat,
            trial: self.trial as nat,
            trail: self.trail@,
            columns: self.registers.columns(),
            ascending: self.registers.ascending(),
            descending: self.registers.descending(),
            solutions: self.counters.solution_count as nat,
            accesses: self.counters.memory_access_count as nat,
        }
    }
}

/// What a search on an `n`-board has to return: the two counts, as far as
/// 64-bit counters reach, or the refusal of a board that does not fit the
/// registers.
pub open spec fn is_search_outcome(
    n: usize,
    outcome: Result<InstrumentationCounters, ConfigurationError>,
) -> bool {
    match outcome {
        Ok(counters) => {
            &&& n <= MAX_BOARD_SIZE
            &&& counters.solution_count == saturated(solutions(n as nat).len())
            &&& counters.memory_access_count == saturated(2 * nodes(n as nat).len())
        },
        Err(error) => n > MAX_BOARD_SIZE && error.board_size == n,
    }
}

/// Two searches on boards of the same size return the same: the outcome
/// depends on the board size alone, and nothing is carried over from one
/// search to the next.
pub proof fn lemma_search_is_repeatable(
    n: usize,
    first: Result<InstrumentationCounters, ConfigurationError>,
    second: Result<InstrumentationCounters, ConfigurationError>,
)
    requires
        is_search_outcome(n, first),
        is_search_outcome(n, second),
    ensures
        first == second,
{
}

impl SearchEngine {
    /// The engine is in a state that a search can be in: the board fits the
    /// registers, and the state satisfies the invariant of the machine.
    pub closed spec fn inv(&self) -> bool {
        &&& self.registers.wf()
        &&& self.registers.board_size() == self.n
        &&& self@.inv()
    }

    /// A valid engine is in a state that satisfies the invariant of the
    /// machine, on a board that fits the registers: what holds of every such
    /// state holds of the engine.
    pub proof fn lemma_inv_is_machine_inv(&self)
        requires
            self.inv(),
        ensures
            self@.inv(),
            self@.n <= MAX_BOARD_SIZE,
    {
    }

    /// An engine for a board of size `n`, about to start. Refused, before
    /// anything else happens, when the board does not fit the registers.
    pub fn new(n: usize) -> (made: Result<Self, ConfigurationError>)
        ensures
            made is Ok <==> n <= MAX_BOARD_SIZE,
            made matches Ok(engine) ==> {
                &&& engine.inv()
                &&& engine@ == SearchState::initial(n as nat)
            },
            made matches Err(error) ==> error.board_size == n,
    {
        let registers = match ConstraintRegisters::new(n) {
            Ok(registers) => registers,
            Err(error) => {
                return Err(error);
            },
        };
        let trail = PlacementTrail::new(n);
        let engine = SearchEngine {
            n,
            level: 0,
            trial: 0,
            step: Step::Initialize,
            registers,
            trail,
            counters: InstrumentationCounters::new(),
        };
        proof {
            lemma_initial_inv(n as nat);
            assert(engine@.trail =~= SearchState::initial(n as nat).trail);
        }
        Ok(engine)
    }

    /// Whether the search is over.
    pub fn is_finished(&self) -> (done: bool)
        ensures
            done == self@.finished(),
    {
        self.level == 0 && self.step == Step::Backtrack
    }

    /// Makes one transition of the state machine.
    pub fn step(&mut self)
        requires
            old(self).inv(),
            !old(self)@.finished(),
        ensures
            final(self).inv(),
            final(self)@ == old(self)@.next(),
    {
        proof {
            lemma_next_preserves_inv(self@);
        }
        let ghost before = self@;
        let ghost p = before.placement();
        match self.step {
            Step::Initialize => {
                self.level = 1;
                self.step = Step::EnterLevel;
            },
            Step::EnterLevel => {
                if self.level > self.n {
                    self.counters.visit_solution();
                    self.step = Step::Backtrack;
                } else {
                    self.trial = 1;
                    self.step = Step::TryColumn;
                }
            },
            Step::TryColumn => {
                if self.registers.conflict(self.trial, self.level) {
                    self.step = Step::Advance;
                } else {
                    self.registers.place(self.trial, self.level);
                    self.trail.set(self.level, self.trial, &mut self.counters);
                    self.level += 1;
                    self.step = Step::EnterLevel;
                }
            },
            Step::Advance => {
                if self.trial < self.n {
                    self.trial += 1;
                    self.step = Step::TryColumn;
                } else {
                    self.step = Step::Backtrack;
                }
            },
            Step::Backtrack => {
                self.level -= 1;
                if self.level > 0 {
                    self.trial = self.trail.get(self.level, &mut self.counters);
                    proof {
                        let last = p.len() - 1;
                        assert(p[last] == self.trial);
                        assert(before.columns.contains(p[last]));
                        assert(before.ascending.contains(p[last] + last));
                        assert(before.descending.contains(p[last] + self.n - (last + 1)));
                    }
                    self.registers.remove(self.trial, self.level);
                    self.step = Step::Advance;
                }
            },
        }
        assert(self@ =~= before.next());
    }

    /// Runs the search to its end.
    pub fn run(&mut self)
        requires
            old(self).inv(),
        ensures
            final(self).inv(),
            final(self)@.finished(),
            final(self)@.n == old(self)@.n,
            final(self)@.solutions == saturated(solutions(old(self)@.n).len()),
            final(self)@.accesses == saturated(2 * nodes(old(self)@.n).len()),
    {
        while !self.is_finished()
            invariant
                self.inv(),
                self@.n == old(self)@.n,
            decreases self@.remaining_accesses(), self@.local_steps(),
        {
            proof {
                lemma_next_decreases(self@);
                lemma_next_preserves_inv(self@);
            }
            self.step();
        }
        proof {
            lemma_finished_counts(self@);
        }
    }

    /// The columns chosen so far, one per row above the current one, read
    /// from the trail without counting the reads.
    pub fn placement(&self) -> (columns: Vec<usize>)
        requires
            self.inv(),
        ensures
            columns@.len() == self@.placement().len(),
            forall|i: int| 0 <= i < columns@.len() ==> columns@[i] == self@.placement()[i],
    {
        let mut columns: Vec<usize> = Vec::new();
        let mut row: usize = 1;
        while row < self.level
            invariant
                self.inv(),
                1 <= row,
                row <= self.level || row == 1,
                columns@.len() == row - 1,
                forall|i: int| 0 <= i < columns@.len() ==> columns@[i] == self.trail@[i + 1],
            decreases self.level - row,
        {
            columns.push(self.trail.peek(row));
            row += 1;
        }
        proof {
            let p = self@.placement();
            assert(columns@.len() == p.len());
            assert forall|i: int| 0 <= i < columns@.len() implies columns@[i] == p[i] by {
                assert(p[i] == self.trail@[i + 1]);
            }
        }
        columns
    }

    /// The counters as they stand.
    pub fn counters(&self) -> (counters: InstrumentationCounters)
        ensures
            counters.solution_count == self@.solutions,
            counters.memory_access_count == self@.accesses,
    {
        self.counters
    }

    /// Size of the board.
    pub fn board_size(&self) -> (n: usize)
        ensures
            n == self@.n,
    {
        self.n
    }

    /// The control state.
    pub fn current_step(&self) -> (step: Step)
        ensures
            step == self@.step,
    {
        self.step
    }

    /// The row being filled.
    pub fn level(&self) -> (level: usize)
        ensures
            level == self@.level,
    {
        self.level
    }

    /// The column being tried.
    pub fn trial(&self) -> (trial: usize)
        ensures
            trial == self@.trial,
    {
        self.trial
    }

    /// The constraint registers.
    pub fn registers(&self) -> (registers: &ConstraintRegisters)
        ensures
            registers.columns() == self@.columns,
            registers.ascending() == self@.ascending,
            registers.descending() == self@.descending,
            self.inv() ==> registers.wf() && registers.board_size() == self@.n,
    {
        &self.registers
    }
}

/// Counts the placements of `n` non-attacking queens on an `n`-board by
/// exhaustive backtracking, and the trail accesses that the search makes.
pub fn search(n: usize) -> (outcome: Result<InstrumentationCounters, ConfigurationError>)
    ensures
        is_search_outcome(n, outcome),
{
    match SearchEngine::new(n) {
        Ok(mut engine) => {
            engine.run();
            Ok(engine.counters())
        },
        Err(error) => Err(error),
    }
}

} // verus!
