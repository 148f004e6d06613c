//! The search as a state machine over mathematical values: its states, its
//! transition function, the invariant that every reachable state satisfies,
//! and what the invariant implies.

use vstd::prelude::*;
use crate::census::{
    nodes, solutions, lemma_node_count_is_cardinality, lemma_solution_count_is_cardinality,
};
use crate::counters::{bumped, saturated, lemma_bumped_saturated};
use crate::registers::{column_index, ascending_index, descending_index};
use crate::placement::{
    attacked, attacks, hits, apart, conflict_free, passed, node_count,
    lemma_push_conflict_free, lemma_drop_last_conflict_free, lemma_passed_descend,
    lemma_passed_advance, lemma_passed_exhausted, lemma_passed_bounded,
};

verus! {

/// The five control states of the search.
#[derive(Clone, Copy, Debug, PartialEq, Eq, Structural)]
pub enum Step {
    /// Nothing has happened yet.
    Initialize,
    /// A row has just been entered.
    EnterLevel,
    /// The trial column is about to be tested in the current row.
    TryColumn,
    /// The trial column of the current row is done with.
    Advance,
    /// The current row has no column left, or the board was full.
    Backtrack,
}

/// The column bits that the queens of `p` account for.
pub open spec fn column_bits(p: Seq<int>) -> Set<int> {
    Set::new(|b: int| exists|i: int| 0 <= i < p.len() && column_index(#[trigger] p[i]) == b)
}

/// The ascending-diagonal bits that the queens of `p` account for.
pub open spec fn ascending_bits(p: Seq<int>) -> Set<int> {
    Set::new(
        |b: int| exists|i: int| 0 <= i < p.len() && ascending_index(#[trigger] p[i], i + 1) == b,
    )
}

/// The descending-diagonal bits that the queens of `p` account for on an
/// `n`-board.
pub open spec fn descending_bits(n: nat, p: Seq<int>) -> Set<int> {
    Set::new(
        |b: int|
            exists|i: int| 0 <= i < p.len() && descending_index(n, #[trigger] p[i], i + 1) == b,
    )
}

/// One state of the search: control state, current row and trial column, the
/// trail of chosen columns, the three registers as sets of bit positions, and
/// the two counters.
pub struct SearchState {
    /// Board size.
    pub n: nat,
    /// Control state.
    pub step: Step,
    /// Row being filled; 0 before the start and after the end.
    pub level: nat,
    /// Column being tried in that row.
    pub trial: nat,
    /// Chosen column per row; entry 0 is unused, entries from `level` on are
    /// stale.
    pub trail: Seq<int>,
    /// Set bits of the column register.
    pub columns: Set<int>,
    /// Set bits of the ascending-diagonal register.
    pub ascending: Set<int>,
    /// Set bits of the descending-diagonal register.
    pub descending: Set<int>,
    /// Solutions counted so far.
    pub solutions: nat,
    /// Trail reads and writes counted so far.
    pub accesses: nat,
}

impl SearchState {
    /// The state in which every search on an `n`-board starts: nothing
    /// placed, nothing counted, the trail all zero.
    pub open spec fn initial(n: nat) -> SearchState {
        SearchState {
            n,
            step: Step::Initialize,
            level: 0,
            trial: 0,
            trail: Seq::new(n + 1, |i: int| 0int),
            columns: Set::empty(),
            ascending: Set::empty(),
            descending: Set::empty(),
            solutions: 0,
            accesses: 0,
        }
    }

    /// The search is over: backtracking has left the first row.
    pub open spec fn finished(self) -> bool {
        self.step == Step::Backtrack && self.level == 0
    }

    /// The committed placement: the trail's columns for the rows above the
    /// current one.
    pub open spec fn placement(self) -> Seq<int> {
        if self.level == 0 {
            Seq::empty()
        } else {
            self.trail.subrange(1, self.level as int)
        }
    }

    /// The registers report a conflict for the trial column in the current
    /// row.
    pub open spec fn conflict(self) -> bool {
        ||| self.columns.contains(column_index(self.trial as int))
        ||| self.ascending.contains(ascending_index(self.trial as int, self.level as int))
        ||| self.descending.contains(descending_index(self.n, self.trial as int, self.level as int))
    }

    /// The state after one transition. A finished state stays as it is.
    pub open spec fn next(self) -> SearchState {
        match self.step {
            Step::Initialize => SearchState { level: 1, step: Step::EnterLevel, ..self },
            Step::EnterLevel => if self.level > self.n {
                SearchState { solutions: bumped(self.solutions), step: Step::Backtrack, ..self }
            } else {
                SearchState { trial: 1, step: Step::TryColumn, ..self }
            },
            Step::TryColumn => if self.conflict() {
                SearchState { step: Step::Advance, ..self }
            } else {
                SearchState {
                    columns: self.columns.insert(column_index(self.trial as int)),
                    ascending: self.ascending.insert(
                        ascending_index(self.trial as int, self.level as int),
                    ),
                    descending: self.descending.insert(
                        descending_index(self.n, self.trial as int, self.level as int),
                    ),
                    trail: self.trail.update(self.level as int, self.trial as int),
                    accesses: bumped(self.accesses),
                    level: self.level + 1,
                    step: Step::EnterLevel,
                    ..self
                }
            },
            Step::Advance => if self.trial < self.n {
                SearchState { trial: self.trial + 1, step: Step::TryColumn, ..self }
            } else {
                SearchState { step: Step::Backtrack, ..self }
            },
            Step::Backtrack => if self.level == 0 {
                self
            } else if self.level == 1 {
                SearchState { level: 0, ..self }
            } else {
                let l = self.level - 1;
                let t = self.trail[l];
                SearchState {
                    columns: self.columns.remove(column_index(t)),
                    ascending: self.ascending.remove(ascending_index(t, l)),
                    descending: self.descending.remove(descending_index(self.n, t, l)),
                    accesses: bumped(self.accesses),
                    trial: t as nat,
                    level: l as nat,
                    step: Step::Advance,
                    ..self
                }
            },
        }
    }

    /// The state after `k` transitions.
    pub open spec fn after(self, k: nat) -> SearchState
        decreases k,
    {
        if k == 0 {
            self
        } else {
            self.after((k - 1) as nat).next()
        }
    }

    /// What the search has left behind for good in this state: solutions
    /// found (`all` false) or placements entered and left again (`all` true).
    pub open spec fn left_behind(self, all: bool) -> nat {
        let p = self.placement();
        match self.step {
            Step::Initialize => 0,
            Step::EnterLevel => passed(self.n, p, 1, all),
            Step::TryColumn => passed(self.n, p, self.trial as int, all),
            Step::Advance => passed(self.n, p, self.trial as int + 1, all),
            Step::Backtrack => passed(self.n, p, self.n as int + 1, all) + if !all && p.len()
                == self.n {
                1nat
            } else {
                0nat
            },
        }
    }

    /// Row and trial column are within the bounds that the control state
    /// asks for.
    pub open spec fn in_bounds(self) -> bool {
        match self.step {
            Step::Initialize => self.level == 0,
            Step::EnterLevel => 1 <= self.level <= self.n + 1,
            Step::TryColumn | Step::Advance => 1 <= self.level <= self.n && 1 <= self.trial
                <= self.n,
            Step::Backtrack => self.level <= self.n + 1,
        }
    }

    /// The registers hold exactly the bits that the committed placement
    /// accounts for.
    pub open spec fn registers_match_trail(self) -> bool {
        &&& self.columns == column_bits(self.placement())
        &&& self.ascending == ascending_bits(self.placement())
        &&& self.descending == descending_bits(self.n, self.placement())
    }

    /// The counters show what the search has done up to this state: one
    /// solution per complete placement left behind, one write per placement
    /// entered and one read per placement left again.
    pub open spec fn counters_match_progress(self) -> bool {
        &&& self.solutions == saturated(self.left_behind(false))
        &&& self.accesses == saturated(2 * self.left_behind(true) + self.placement().len())
    }

    /// The invariant of the search: it holds initially and after every
    /// transition.
    pub open spec fn inv(self) -> bool {
        &&& self.trail.len() == self.n + 1
        &&& self.in_bounds()
        &&& conflict_free(self.n, self.placement())
        &&& self.registers_match_trail()
        &&& self.counters_match_progress()
    }

    /// Trail accesses that the search still has to make.
    pub open spec fn remaining_accesses(self) -> int {
        2 * node_count(self.n) - (2 * self.left_behind(true) + self.placement().len())
    }

    /// Bound on the transitions that can follow without a trail access.
    pub open spec fn local_steps(self) -> nat {
        match self.step {
            Step::Initialize => 2 * self.n + 5,
            Step::EnterLevel => 2 * self.n + 4,
            Step::TryColumn => (2 * (self.n - self.trial) + 3) as nat,
            Step::Advance => (2 * (self.n - self.trial) + 2) as nat,
            Step::Backtrack => if self.level == 0 {
                0
            } else {
                1
            },
        }
    }
}

/// Adding a queen adds its three bits to what the placement accounts for.
pub proof fn lemma_bits_push(n: nat, p: Seq<int>, t: int)
    ensures
        column_bits(p.push(t)) == column_bits(p).insert(column_index(t)),
        ascending_bits(p.push(t)) == ascending_bits(p).insert(
            ascending_index(t, p.len() as int + 1),
        ),
        descending_bits(n, p.push(t)) == descending_bits(n, p).insert(
            descending_index(n, t, p.len() as int + 1),
        ),
{
    let q = p.push(t);
    let last = p.len() as int;
    assert(q[last] == t);
    assert forall|b: int| column_bits(q).contains(b) <==> column_bits(p).insert(
        column_index(t),
    ).contains(b) by {
        if column_bits(q).contains(b) {
            let i = choose|i: int| 0 <= i < q.len() && column_index(#[trigger] q[i]) == b;
            if i < last {
                assert(column_index(p[i]) == b);
            }
        }
        if column_bits(p).contains(b) {
            let i = choose|i: int| 0 <= i < p.len() && column_index(#[trigger] p[i]) == b;
            assert(column_index(q[i]) == b);
        }
    }
    assert forall|b: int| ascending_bits(q).contains(b) <==> ascending_bits(p).insert(
        ascending_index(t, last + 1),
    ).contains(b) by {
        if ascending_bits(q).contains(b) {
            let i = choose|i: int|
                0 <= i < q.len() && ascending_index(#[trigger] q[i], i + 1) == b;
            if i < last {
                assert(ascending_index(p[i], i + 1) == b);
            }
        }
        if ascending_bits(p).contains(b) {
            let i = choose|i: int|
                0 <= i < p.len() && ascending_index(#[trigger] p[i], i + 1) == b;
            assert(ascending_index(q[i], i + 1) == b);
        }
    }
    assert forall|b: int| descending_bits(n, q).contains(b) <==> descending_bits(n, p).insert(
        descending_index(n, t, last + 1),
    ).contains(b) by {
        if descending_bits(n, q).contains(b) {
            let i = choose|i: int|
                0 <= i < q.len() && descending_index(n, #[trigger] q[i], i + 1) == b;
            if i < last {
                assert(descending_index(n, p[i], i + 1) == b);
            }
        }
        if descending_bits(n, p).contains(b) {
            let i = choose|i: int|
                0 <= i < p.len() && descending_index(n, #[trigger] p[i], i + 1) == b;
            assert(descending_index(n, q[i], i + 1) == b);
        }
    }
    assert(column_bits(q) =~= column_bits(p).insert(column_index(t)));
    assert(ascending_bits(q) =~= ascending_bits(p).insert(ascending_index(t, last + 1)));
    assert(descending_bits(n, q) =~= descending_bits(n, p).insert(
        descending_index(n, t, last + 1),
    ));
}

/// Taking the last queen off a conflict-free placement takes exactly its
/// three bits away: no other queen shares them.
pub proof fn lemma_bits_drop_last(n: nat, p: Seq<int>)
    requires
        conflict_free(n, p),
        p.len() > 0,
    ensures
        column_bits(p.drop_last()) == column_bits(p).remove(column_index(p.last())),
        ascending_bits(p.drop_last()) == ascending_bits(p).remove(
            ascending_index(p.last(), p.len() as int),
        ),
        descending_bits(n, p.drop_last()) == descending_bits(n, p).remove(
            descending_index(n, p.last(), p.len() as int),
        ),
{
    let q = p.drop_last();
    let t = p.last();
    let last = p.len() - 1;
    lemma_drop_last_conflict_free(n, p);
    lemma_bits_push(n, q, t);
    assert forall|i: int| 0 <= i < q.len() implies column_index(#[trigger] q[i]) != column_index(t)
        && ascending_index(q[i], i + 1) != ascending_index(t, last + 1) && descending_index(
        n,
        q[i],
        i + 1,
    ) != descending_index(n, t, last + 1) by {
        assert(apart(p, i, last));
    }
    assert(column_bits(q) =~= column_bits(p).remove(column_index(t)));
    assert(ascending_bits(q) =~= ascending_bits(p).remove(ascending_index(t, last + 1)));
    assert(descending_bits(n, q) =~= descending_bits(n, p).remove(
        descending_index(n, t, last + 1),
    ));
}

/// The three register tests together answer whether a queen of the placement
/// attacks column `t` of the next row.
pub proof fn lemma_bits_decide_attack(n: nat, p: Seq<int>, t: int)
    ensures
        attacked(p, t) <==> (column_bits(p).contains(column_index(t)) || ascending_bits(
            p,
        ).contains(ascending_index(t, p.len() as int + 1)) || descending_bits(n, p).contains(
            descending_index(n, t, p.len() as int + 1),
        )),
{
    let l = p.len() as int + 1;
    if attacked(p, t) {
        let i = choose|i: int| 0 <= i < p.len() && #[trigger] hits(p, i, t);
        assert(column_index(p[i]) == column_index(t) || ascending_index(p[i], i + 1)
            == ascending_index(t, l) || descending_index(n, p[i], i + 1) == descending_index(
            n,
            t,
            l,
        ));
    }
    if column_bits(p).contains(column_index(t)) {
        let i = choose|i: int| 0 <= i < p.len() && column_index(#[trigger] p[i]) == column_index(t);
        assert(hits(p, i, t));
    }
    if ascending_bits(p).contains(ascending_index(t, l)) {
        let i = choose|i: int|
            0 <= i < p.len() && ascending_index(#[trigger] p[i], i + 1) == ascending_index(t, l);
        assert(hits(p, i, t));
    }
    if descending_bits(n, p).contains(descending_index(n, t, l)) {
        let i = choose|i: int|
            0 <= i < p.len() && descending_index(n, #[trigger] p[i], i + 1) == descending_index(
                n,
                t,
                l,
            );
        assert(hits(p, i, t));
    }
}

/// Every transition keeps the invariant.
pub proof fn lemma_next_preserves_inv(s: SearchState)
    requires
        s.inv(),
    ensures
        s.next().inv(),
        s.next().n == s.n,
{
    let n = s.n;
    let p = s.placement();
    let r = s.next();
    let q = r.placement();
    match s.step {
        Step::Initialize => {
            assert(q =~= p);
            assert(passed(n, q, 1, false) == 0);
            assert(passed(n, q, 1, true) == 0);
        },
        Step::EnterLevel => {
            assert(q == p);
            if s.level > n {
                lemma_passed_exhausted(n, p, false);
                lemma_passed_exhausted(n, p, true);
                lemma_bumped_saturated(s.left_behind(false));
            }
        },
        Step::TryColumn => {
            let t = s.trial as int;
            lemma_bits_decide_attack(n, p, t);
            lemma_passed_advance(n, p, t, false);
            lemma_passed_advance(n, p, t, true);
            if s.conflict() {
                assert(q == p);
            } else {
                assert(q =~= p.push(t));
                lemma_push_conflict_free(n, p, t);
                lemma_bits_push(n, p, t);
                lemma_passed_descend(n, p, t, false);
                lemma_passed_descend(n, p, t, true);
                lemma_bumped_saturated(2 * s.left_behind(true) + p.len());
            }
        },
        Step::Advance => {
            assert(q == p);
        },
        Step::Backtrack => {
            if s.level == 0 {
            } else if s.level == 1 {
                assert(q =~= p);
            } else {
                let c = p.last();
                assert(q =~= p.drop_last());
                assert(c == s.trail[s.level - 1]);
                lemma_drop_last_conflict_free(n, p);
                lemma_bits_drop_last(n, p);
                lemma_passed_advance(n, q, c, false);
                lemma_passed_advance(n, q, c, true);
                lemma_passed_descend(n, q, c, false);
                lemma_passed_descend(n, q, c, true);
                lemma_passed_exhausted(n, p, false);
                lemma_passed_exhausted(n, p, true);
                lemma_bumped_saturated(2 * s.left_behind(true) + p.len());
            }
        },
    }
}

/// Every transition of an unfinished search brings the end nearer: it makes
/// one of the trail accesses that remain, or it leaves them as they are and
/// uses up one of the steps that can follow without an access.
pub proof fn lemma_next_decreases(s: SearchState)
    requires
        s.inv(),
        !s.finished(),
    ensures
        0 <= s.next().remaining_accesses() <= s.remaining_accesses(),
        s.next().remaining_accesses() == s.remaining_accesses() ==> s.next().local_steps()
            < s.local_steps(),
{
    let n = s.n;
    let p = s.placement();
    let r = s.next();
    let q = r.placement();
    lemma_next_preserves_inv(s);
    lemma_accesses_bounded(r);
    match s.step {
        Step::Initialize => {
            assert(q =~= p);
            assert(passed(n, q, 1, true) == 0);
        },
        Step::EnterLevel => {
            assert(q == p);
            if s.level > n {
                lemma_passed_exhausted(n, p, true);
            }
        },
        Step::TryColumn => {
            let t = s.trial as int;
            lemma_bits_decide_attack(n, p, t);
            lemma_passed_advance(n, p, t, true);
            if s.conflict() {
                assert(q == p);
            } else {
                assert(q =~= p.push(t));
                lemma_passed_descend(n, p, t, true);
            }
        },
        Step::Advance => {
            assert(q == p);
        },
        Step::Backtrack => {
            if s.level == 1 {
                assert(q =~= p);
            } else {
                let c = p.last();
                assert(q =~= p.drop_last());
                assert(c == s.trail[s.level - 1]);
                lemma_drop_last_conflict_free(n, p);
                lemma_passed_advance(n, q, c, true);
                lemma_passed_descend(n, q, c, true);
                lemma_passed_exhausted(n, p, true);
            }
        },
    }
}

/// In every state of the search the accesses made so far are among those
/// that a whole search makes.
pub proof fn lemma_accesses_bounded(s: SearchState)
    requires
        s.inv(),
    ensures
        s.remaining_accesses() >= 0,
{
    let n = s.n;
    let p = s.placement();
    match s.step {
        Step::Initialize => {},
        Step::EnterLevel => {
            lemma_passed_bounded(n, p, 1);
        },
        Step::TryColumn => {
            lemma_passed_bounded(n, p, s.trial as int);
        },
        Step::Advance => {
            lemma_passed_bounded(n, p, s.trial as int + 1);
        },
        Step::Backtrack => {
            lemma_passed_bounded(n, p, n as int + 1);
        },
    }
}

/// Taking one transition first and `k` afterwards is taking `k + 1`.
pub proof fn lemma_after_shift(s: SearchState, k: nat)
    ensures
        s.next().after(k) == s.after(k + 1),
    decreases k,
{
    assert(s.after(k + 1) == s.after(k).next());
    if k == 0 {
        assert(s.after(0) == s);
    } else {
        lemma_after_shift(s, (k - 1) as nat);
        assert(s.next().after(k) == s.next().after((k - 1) as nat).next());
    }
}

/// Every search ends: from any state that satisfies the invariant, finitely
/// many transitions lead to a finished state. The result is their number.
pub proof fn lemma_search_ends(s: SearchState) -> (k: nat)
    requires
        s.inv(),
    ensures
        s.after(k).finished(),
    decreases s.remaining_accesses(), s.local_steps(),
{
    if s.finished() {
        0
    } else {
        lemma_next_decreases(s);
        lemma_next_preserves_inv(s);
        let k = lemma_search_ends(s.next());
        lemma_after_shift(s, k);
        k + 1
    }
}

/// A finished search shows the number of solutions of the `n`-queens problem
/// and two trail accesses, a write and a read, for every non-empty
/// conflict-free placement, as far as the counters reach.
pub proof fn lemma_finished_counts(s: SearchState)
    requires
        s.inv(),
        s.finished(),
    ensures
        s.solutions == saturated(solutions(s.n).len()),
        s.accesses == saturated(2 * nodes(s.n).len()),
{
    lemma_solution_count_is_cardinality(s.n);
    lemma_node_count_is_cardinality(s.n);
    let p = s.placement();
    assert(p =~= Seq::empty());
    lemma_passed_exhausted(s.n, p, false);
    lemma_passed_exhausted(s.n, p, true);
    assert(passed(s.n, p, 1, false) == 0);
    assert(passed(s.n, p, 1, true) == 0);
}

/// The initial state satisfies the invariant.
pub proof fn lemma_initial_inv(n: nat)
    ensures
        SearchState::initial(n).inv(),
{
    let s = SearchState::initial(n);
    assert(s.columns =~= column_bits(s.placement()));
    assert(s.ascending =~= ascending_bits(s.placement()));
    assert(s.descending =~= descending_bits(n, s.placement()));
}

/// The invariant holds after any number of transitions.
pub proof fn lemma_after_preserves_inv(s: SearchState, k: nat)
    requires
        s.inv(),
    ensures
        s.after(k).inv(),
        s.after(k).n == s.n,
    decreases k,
{
    if k > 0 {
        lemma_after_preserves_inv(s, (k - 1) as nat);
        lemma_next_preserves_inv(s.after((k - 1) as nat));
    }
}

/// Consistency of registers and trail. In every state of the search, and so
/// whenever a column is about to be tried: each queen in a row above the
/// current one has its column bit and its two diagonal bits set; every bit
/// that is set belongs to such a queen; and the register test on the trial
/// column agrees with a scan of those rows for a queen that attacks it.
pub proof fn lemma_registers_reflect_trail(s: SearchState)
    requires
        s.inv(),
    ensures
        forall|r: int|
            1 <= r < s.level ==> {
                &&& s.columns.contains(column_index(#[trigger] s.trail[r]))
                &&& s.ascending.contains(ascending_index(s.trail[r], r))
                &&& s.descending.contains(descending_index(s.n, s.trail[r], r))
            },
        forall|b: int|
            s.columns.contains(b) ==> exists|r: int|
                1 <= r < s.level && column_index(#[trigger] s.trail[r]) == b,
        forall|b: int|
            s.ascending.contains(b) ==> exists|r: int|
                1 <= r < s.level && ascending_index(#[trigger] s.trail[r], r) == b,
        forall|b: int|
            s.descending.contains(b) ==> exists|r: int|
                1 <= r < s.level && descending_index(s.n, #[trigger] s.trail[r], r) == b,
        s.level >= 1 ==> (s.conflict() <==> exists|r: int|
            1 <= r < s.level && attacks(r, #[trigger] s.trail[r], s.level as int, s.trial as int)),
{
    let p = s.placement();
    assert forall|r: int| 1 <= r < s.level implies {
        &&& s.columns.contains(column_index(#[trigger] s.trail[r]))
        &&& s.ascending.contains(ascending_index(s.trail[r], r))
        &&& s.descending.contains(descending_index(s.n, s.trail[r], r))
    } by {
        assert(p[r - 1] == s.trail[r]);
    }
    assert forall|b: int| s.columns.contains(b) implies exists|r: int|
        1 <= r < s.level && column_index(#[trigger] s.trail[r]) == b by {
        let i = choose|i: int| 0 <= i < p.len() && column_index(#[trigger] p[i]) == b;
        assert(column_index(s.trail[i + 1]) == b);
    }
    assert forall|b: int| s.ascending.contains(b) implies exists|r: int|
        1 <= r < s.level && ascending_index(#[trigger] s.trail[r], r) == b by {
        let i = choose|i: int| 0 <= i < p.len() && ascending_index(#[trigger] p[i], i + 1) == b;
        assert(ascending_index(s.trail[i + 1], i + 1) == b);
    }
    assert forall|b: int| s.descending.contains(b) implies exists|r: int|
        1 <= r < s.level && descending_index(s.n, #[trigger] s.trail[r], r) == b by {
        let i = choose|i: int|
            0 <= i < p.len() && descending_index(s.n, #[trigger] p[i], i + 1) == b;
        assert(descending_index(s.n, s.trail[i + 1], i + 1) == b);
    }
    if s.level >= 1 {
        let t = s.trial as int;
        lemma_bits_decide_attack(s.n, p, t);
        if attacked(p, t) {
            let i = choose|i: int| 0 <= i < p.len() && #[trigger] hits(p, i, t);
            assert(attacks(i + 1, s.trail[i + 1], s.level as int, t));
        }
        if exists|r: int|
            1 <= r < s.level && attacks(r, #[trigger] s.trail[r], s.level as int, t) {
            let r = choose|r: int|
                1 <= r < s.level && attacks(r, #[trigger] s.trail[r], s.level as int, t);
            assert(hits(p, r - 1, t));
        }
    }
}

/// State `r` belongs to the visit of row `l` that is under way: the search is
/// in row `l` or below it and has not entered row `l` anew.
pub open spec fn in_visit(r: SearchState, l: nat) -> bool {
    r.level >= l && !(r.level == l && r.step == Step::EnterLevel)
}

/// How far the visit of row `l` has come in state `r`: twice the column that
/// row `l` is at, plus one once that column has been tested.
pub open spec fn visit_progress(r: SearchState, l: nat) -> int {
    if r.level == l {
        2 * r.trial + if r.step == Step::TryColumn {
            0int
        } else {
            1int
        }
    } else {
        2 * r.trail[l as int] + 1
    }
}

/// Within one visit of a row, no transition takes the row's column back, and
/// testing a column moves the visit on.
pub proof fn lemma_visit_progress_next(r: SearchState, l: nat)
    requires
        r.inv(),
        l >= 1,
        in_visit(r, l),
        in_visit(r.next(), l),
    ensures
        visit_progress(r.next(), l) >= visit_progress(r, l),
        r.level == l && r.step == Step::TryColumn ==> visit_progress(r.next(), l) > visit_progress(
            r,
            l,
        ),
{
}

/// Progress of the visit of row `l` over `m` transitions that stay within it.
pub proof fn lemma_visit_progress_after(s: SearchState, l: nat, m: nat)
    requires
        s.inv(),
        s.step == Step::TryColumn,
        s.level == l,
        forall|k: nat| 1 <= k <= m ==> in_visit(#[trigger] s.after(k), l),
    ensures
        visit_progress(s.after(m), l) >= visit_progress(s, l),
        m >= 1 ==> visit_progress(s.after(m), l) > visit_progress(s, l),
    decreases m,
{
    if m >= 1 {
        let before = s.after((m - 1) as nat);
        lemma_visit_progress_after(s, l, (m - 1) as nat);
        lemma_after_preserves_inv(s, (m - 1) as nat);
        assert(in_visit(s.after(m), l));
        if m >= 2 {
            assert(in_visit(s.after((m - 1) as nat), l));
        }
        lemma_visit_progress_next(before, l);
    }
}

/// Column order. Within one visit of a row, from the moment the row is
/// entered until the search backtracks out of it, the columns that are tried
/// in that row come in strictly increasing order, so that each column from 1
/// to `n` is tried at most once: if column `s.trial` is about to be tried in
/// row `s.level`, and `j` transitions later, all within the same visit of that
/// row, a column is again about to be tried in it, then that column is a
/// higher one.
pub proof fn lemma_trial_columns_increase(s: SearchState, j: nat)
    requires
        s.inv(),
        s.step == Step::TryColumn,
        j >= 1,
        forall|k: nat| 1 <= k <= j ==> in_visit(#[trigger] s.after(k), s.level),
        s.after(j).step == Step::TryColumn,
        s.after(j).level == s.level,
    ensures
        s.trial < s.after(j).trial <= s.n,
{
    lemma_visit_progress_after(s, s.level, j);
    lemma_after_preserves_inv(s, j);
}

} // verus!
