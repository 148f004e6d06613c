//! The mathematics of queen placements: which queens attack each other, which
//! placements are free of conflict, and how many placements extend a given one.
//!
//! A placement is a sequence of columns: entry `i` is the column of the queen
//! in row `i + 1`. Rows and columns are numbered from 1.

use vstd::prelude::*;

verus! {

/// Two queens in different rows attack each other when they share a column,
/// an ascending diagonal (equal `column + row`) or a descending diagonal
/// (equal `column - row`).
pub open spec fn attacks(r1: int, c1: int, r2: int, c2: int) -> bool {
    c1 == c2 || c1 + r1 == c2 + r2 || c1 - r1 == c2 - r2
}

/// The queen in entry `i` of `p` attacks column `t` of the row that follows
/// the last row of `p`.
pub open spec fn hits(p: Seq<int>, i: int, t: int) -> bool {
    attacks(i + 1, p[i], p.len() as int + 1, t)
}

/// Some queen of `p` attacks column `t` of the row that follows `p`.
pub open spec fn attacked(p: Seq<int>, t: int) -> bool {
    exists|i: int| 0 <= i < p.len() && #[trigger] hits(p, i, t)
}

/// The queens in entries `i` and `j` of `p` do not attack each other.
pub open spec fn apart(p: Seq<int>, i: int, j: int) -> bool {
    !attacks(i + 1, p[i], j + 1, p[j])
}

/// `p` fills the first rows of an `n`-board, one queen per row, every queen
/// on the board and no two attacking each other.
pub open spec fn conflict_free(n: nat, p: Seq<int>) -> bool {
    &&& p.len() <= n
    &&& forall|i: int| 0 <= i < p.len() ==> 1 <= #[trigger] p[i] <= n
    &&& forall|i: int, j: int| 0 <= i < j < p.len() ==> #[trigger] apart(p, i, j)
}

/// `p` is a solution: a conflict-free placement that fills all `n` rows.
pub open spec fn is_solution(n: nat, p: Seq<int>) -> bool {
    conflict_free(n, p) && p.len() == n
}

/// Number of conflict-free placements on the `n`-board that extend `p` by
/// zero or more rows. With `all` every such placement counts, `p` itself
/// included; without it only the complete ones do.
pub open spec fn extensions(n: nat, p: Seq<int>, all: bool) -> nat
    decreases n - p.len(), n + 1,
{
    if p.len() >= n {
        1
    } else {
        (if all { 1nat } else { 0nat }) + branches(n, p, n, all)
    }
}

/// The part of `extensions(n, p, all)` that lies beyond `p` and puts the next
/// queen in one of the columns `1..=k`.
pub open spec fn branches(n: nat, p: Seq<int>, k: nat, all: bool) -> nat
    decreases n - p.len(), k,
{
    if k == 0 || p.len() >= n {
        0
    } else {
        branches(n, p, (k - 1) as nat, all) + if attacked(p, k as int) {
            0
        } else {
            extensions(n, p.push(k as int), all)
        }
    }
}

/// Number of solutions of the `n`-queens problem.
pub open spec fn solution_count(n: nat) -> nat {
    extensions(n, Seq::empty(), false)
}

/// Number of non-empty conflict-free placements on the `n`-board, complete or
/// not: the nodes below the root of the search tree.
pub open spec fn node_count(n: nat) -> nat {
    (extensions(n, Seq::empty(), true) - 1) as nat
}

/// What a depth-first walk that tries columns in increasing order has left
/// behind for good when it is about to try column `t` in the row after `p`:
/// the extensions through lower columns of this row, and what was left behind
/// in the rows above.
pub open spec fn passed(n: nat, p: Seq<int>, t: int, all: bool) -> nat
    decreases p.len(),
{
    branches(n, p, (t - 1) as nat, all) + if p.len() == 0 {
        0
    } else {
        passed(n, p.drop_last(), p.last(), all)
    }
}

/// A conflict-free placement stays conflict-free when a queen is added in a
/// column of the next row that none of its queens attacks.
pub proof fn lemma_push_conflict_free(n: nat, p: Seq<int>, t: int)
    requires
        conflict_free(n, p),
        p.len() < n,
        1 <= t <= n,
        !attacked(p, t),
    ensures
        conflict_free(n, p.push(t)),
{
    let q = p.push(t);
    assert forall|i: int, j: int| 0 <= i < j < q.len() implies #[trigger] apart(q, i, j) by {
        if j < p.len() {
            assert(apart(p, i, j));
        } else {
            assert(!hits(p, i, t));
        }
    }
}

/// Dropping the last queen of a conflict-free placement leaves a conflict-free
/// placement in which the dropped queen's column is not attacked.
pub proof fn lemma_drop_last_conflict_free(n: nat, p: Seq<int>)
    requires
        conflict_free(n, p),
        p.len() > 0,
    ensures
        conflict_free(n, p.drop_last()),
        !attacked(p.drop_last(), p.last()),
        1 <= p.last() <= n,
        p.drop_last().push(p.last()) == p,
{
    let q = p.drop_last();
    assert forall|i: int, j: int| 0 <= i < j < q.len() implies #[trigger] apart(q, i, j) by {
        assert(apart(p, i, j));
    }
    assert forall|i: int| 0 <= i < q.len() implies !#[trigger] hits(q, i, p.last()) by {
        assert(apart(p, i, p.len() - 1));
    }
    assert(q.push(p.last()) =~= p);
}

/// Allowing more columns for the next queen never lowers the count.
pub proof fn lemma_branches_monotonic(n: nat, p: Seq<int>, j: nat, k: nat, all: bool)
    requires
        j <= k,
    ensures
        branches(n, p, j, all) <= branches(n, p, k, all),
    decreases k,
{
    if j < k {
        lemma_branches_monotonic(n, p, j, (k - 1) as nat, all);
    }
}

/// Entering the row after `p.push(t)` leaves behind exactly what had been
/// left behind when column `t` was about to be tried after `p`.
pub proof fn lemma_passed_descend(n: nat, p: Seq<int>, t: int, all: bool)
    ensures
        passed(n, p.push(t), 1, all) == passed(n, p, t, all),
{
    let q = p.push(t);
    assert(q.drop_last() =~= p);
    assert(q.last() == t);
    assert(branches(n, q, 0, all) == 0);
}

/// Moving on from column `t` after `p` leaves behind, in addition, the
/// extensions through that column: none if it is attacked.
pub proof fn lemma_passed_advance(n: nat, p: Seq<int>, t: int, all: bool)
    requires
        p.len() < n,
        1 <= t,
    ensures
        passed(n, p, t + 1, all) == passed(n, p, t, all) + if attacked(p, t) {
            0
        } else {
            extensions(n, p.push(t), all)
        },
{
    assert(((t + 1) - 1) as nat == t as nat);
    assert((t as nat - 1) as nat == (t - 1) as nat);
}

/// When every column after `p` has been tried, what the walk has left behind
/// is what it had left behind on entering that row plus all that lies beyond
/// `p`.
pub proof fn lemma_passed_exhausted(n: nat, p: Seq<int>, all: bool)
    ensures
        passed(n, p, n as int + 1, all) + (if all || p.len() >= n { 1nat } else { 0nat })
            == passed(n, p, 1, all) + extensions(n, p, all),
{
    assert(((n + 1) - 1) as nat == n);
    assert(branches(n, p, 0, all) == 0);
}

/// The walk never leaves behind more than the tree holds: what has been
/// passed for good, together with the placements on the current path, stays
/// within the nodes below the root.
pub proof fn lemma_passed_bounded(n: nat, p: Seq<int>, t: int)
    requires
        conflict_free(n, p),
        1 <= t <= n + 1,
    ensures
        passed(n, p, t, true) + p.len() <= node_count(n),
    decreases p.len(),
{
    lemma_branches_monotonic(n, p, (t - 1) as nat, n, true);
    assert(((n + 1) - 1) as nat == n);
    assert(passed(n, p, t, true) <= passed(n, p, n as int + 1, true));
    if p.len() == 0 {
        assert(p =~= Seq::empty());
    } else {
        let q = p.drop_last();
        let c = p.last();
        lemma_drop_last_conflict_free(n, p);
        lemma_passed_bounded(n, q, c + 1);
        lemma_passed_advance(n, q, c, true);
        lemma_passed_exhausted(n, p, true);
        lemma_passed_descend(n, q, c, true);
    }
}

} // verus!
