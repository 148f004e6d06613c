//! The counts of the search tree as cardinalities: the number that the
//! recursive count assigns to a placement is the size of the set of
//! placements that extend it.

use vstd::prelude::*;
use vstd::set_lib::lemma_set_disjoint_lens;
use crate::placement::{
    attacked, hits, apart, conflict_free, is_solution, extensions, branches, solution_count,
    node_count, lemma_push_conflict_free,
};

verus! {

/// The conflict-free placements on the `n`-board that begin with `p`: all of
/// them, or with `all` false the complete ones.
pub open spec fn extension_set(n: nat, p: Seq<int>, all: bool) -> Set<Seq<int>> {
    Set::new(
        |q: Seq<int>| conflict_free(n, q) && p.is_prefix_of(q) && (all || q.len() == n),
    )
}

/// Those among `extension_set(n, p, all)` that are longer than `p` and put
/// the queen of the next row in one of the columns `1..=k`.
pub open spec fn branch_set(n: nat, p: Seq<int>, k: nat, all: bool) -> Set<Seq<int>> {
    Set::new(
        |q: Seq<int>|
            conflict_free(n, q) && p.is_prefix_of(q) && q.len() > p.len() && q[p.len() as int]
                <= k && (all || q.len() == n),
    )
}

/// The solutions of the `n`-queens problem.
pub open spec fn solutions(n: nat) -> Set<Seq<int>> {
    Set::new(|q: Seq<int>| is_solution(n, q))
}

/// The non-empty conflict-free placements on the `n`-board, complete or not.
pub open spec fn nodes(n: nat) -> Set<Seq<int>> {
    Set::new(|q: Seq<int>| conflict_free(n, q) && q.len() > 0)
}

/// A placement that begins with `p` agrees with `p` row by row.
proof fn lemma_prefix_entries(p: Seq<int>, q: Seq<int>)
    requires
        p.is_prefix_of(q),
    ensures
        forall|i: int| 0 <= i < p.len() ==> q[i] == p[i],
{
    let head = q.subrange(0, p.len() as int);
    assert forall|i: int| 0 <= i < p.len() implies q[i] == p[i] by {
        assert(head[i] == q[i]);
    }
}

/// The recursive count of the placements that begin with a conflict-free
/// placement `p` is the size of the set of those placements.
pub proof fn lemma_extensions_count(n: nat, p: Seq<int>, all: bool)
    requires
        conflict_free(n, p),
    ensures
        extension_set(n, p, all).finite(),
        extension_set(n, p, all).len() == extensions(n, p, all),
    decreases n - p.len(), n + 1,
{
    let s = extension_set(n, p, all);
    assert(p.is_prefix_of(p)) by {
        assert(p.subrange(0, p.len() as int) =~= p);
    }
    if p.len() >= n {
        assert forall|q: Seq<int>| s.contains(q) implies q == p by {
            assert(q.subrange(0, p.len() as int) =~= q);
        }
        assert(s.contains(p));
        assert(s =~= Set::<Seq<int>>::empty().insert(p));
    } else {
        lemma_branches_count(n, p, n, all);
        let b = branch_set(n, p, n, all);
        assert forall|q: Seq<int>| s.contains(q) && q.len() > p.len() implies b.contains(q) by {
            assert(1 <= q[p.len() as int] <= n);
        }
        assert forall|q: Seq<int>| s.contains(q) && q.len() <= p.len() implies q == p by {
            assert(q.subrange(0, p.len() as int) =~= q);
        }
        if all {
            assert(s =~= b.insert(p));
        } else {
            assert(s =~= b);
        }
    }
}

/// The recursive count of the placements that go on from a conflict-free
/// placement `p` through one of the columns `1..=k` is the size of the set of
/// those placements.
pub proof fn lemma_branches_count(n: nat, p: Seq<int>, k: nat, all: bool)
    requires
        conflict_free(n, p),
        p.len() < n,
        k <= n,
    ensures
        branch_set(n, p, k, all).finite(),
        branch_set(n, p, k, all).len() == branches(n, p, k, all),
    decreases n - p.len(), k,
{
    let cur = branch_set(n, p, k, all);
    let at = p.len() as int;
    if k == 0 {
        assert forall|q: Seq<int>| !cur.contains(q) by {
            if conflict_free(n, q) && q.len() > p.len() {
                assert(1 <= q[at]);
            }
        }
        assert(cur =~= Set::<Seq<int>>::empty());
    } else {
        let prev = branch_set(n, p, (k - 1) as nat, all);
        lemma_branches_count(n, p, (k - 1) as nat, all);
        if attacked(p, k as int) {
            let i = choose|i: int| 0 <= i < p.len() && #[trigger] hits(p, i, k as int);
            assert forall|q: Seq<int>| cur.contains(q) implies prev.contains(q) by {
                lemma_prefix_entries(p, q);
                if q[at] == k {
                    assert(apart(q, i, at));
                }
            }
            assert(cur =~= prev);
        } else {
            let pk = p.push(k as int);
            lemma_push_conflict_free(n, p, k as int);
            lemma_extensions_count(n, pk, all);
            let e = extension_set(n, pk, all);
            assert forall|q: Seq<int>| cur.contains(q) <==> prev.contains(q) || e.contains(
                q,
            ) by {
                if cur.contains(q) && !prev.contains(q) {
                    lemma_prefix_entries(p, q);
                    assert(q[at] == k);
                    assert(q.subrange(0, pk.len() as int) =~= pk);
                }
                if e.contains(q) {
                    lemma_prefix_entries(pk, q);
                    assert(q[at] == pk[at]);
                    assert(q.subrange(0, p.len() as int) =~= p);
                }
            }
            assert forall|q: Seq<int>| !(prev.contains(q) && e.contains(q)) by {
                if e.contains(q) {
                    lemma_prefix_entries(pk, q);
                    assert(q[at] == pk[at]);
                }
            }
            assert(cur =~= prev + e);
            assert(prev.disjoint(e));
            lemma_set_disjoint_lens(prev, e);
        }
    }
}

/// The number of solutions that the search reports is the number of
/// placements of `n` queens on the `n`-board, one per row, no two attacking
/// each other.
pub proof fn lemma_solution_count_is_cardinality(n: nat)
    ensures
        solutions(n).finite(),
        solutions(n).len() == solution_count(n),
{
    let root = Seq::<int>::empty();
    lemma_extensions_count(n, root, false);
    assert forall|q: Seq<int>| root.is_prefix_of(q) by {
        assert(q.subrange(0, 0) =~= root);
    }
    assert(solutions(n) =~= extension_set(n, root, false));
}

/// The number of nodes below the root of the search tree is the number of
/// non-empty conflict-free placements on the `n`-board.
pub proof fn lemma_node_count_is_cardinality(n: nat)
    ensures
        nodes(n).finite(),
        nodes(n).len() == node_count(n),
{
    let root = Seq::<int>::empty();
    lemma_extensions_count(n, root, true);
    assert forall|q: Seq<int>| root.is_prefix_of(q) by {
        assert(q.subrange(0, 0) =~= root);
    }
    let everything = extension_set(n, root, true);
    assert(everything.contains(root));
    assert forall|q: Seq<int>| q.len() == 0 implies q == root by {
        assert(q =~= root);
    }
    assert(nodes(n) =~= everything.remove(root));
}

} // verus!
