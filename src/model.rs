//! Mathematical model of an adjacency structure and the facts about it
//! that the executable code relies on.

use vstd::prelude::*;

verus! {

/// Number of `true` flags in a row.
pub open spec fn count_true(s: Seq<bool>) -> nat
    decreases s.len(),
{
    if s.len() == 0 {
        0
    } else {
        count_true(s.drop_last()) + if s.last() { 1nat } else { 0nat }
    }
}

/// Flags that are set in both rows, position by position.
pub open spec fn both(a: Seq<bool>, b: Seq<bool>) -> Seq<bool> {
    Seq::new(a.len(), |k: int| a[k] && b[k])
}

/// Number of positions set in both rows: the common neighbours of two nodes.
pub open spec fn common_count(a: Seq<bool>, b: Seq<bool>) -> nat {
    count_true(both(a, b))
}

/// A square table of flags that is symmetric and has an empty diagonal:
/// an undirected simple graph on nodes `0..adj.len()`.
pub open spec fn is_adjacency(adj: Seq<Seq<bool>>) -> bool {
    &&& forall|i: int| 0 <= i < adj.len() ==> #[trigger] adj[i].len() == adj.len()
    &&& forall|i: int| 0 <= i < adj.len() ==> !#[trigger] adj[i][i]
    &&& forall|i: int, j: int|
        0 <= i < adj.len() && 0 <= j < adj.len() ==> #[trigger] adj[i][j] == adj[j][i]
}

pub open spec fn degree(adj: Seq<Seq<bool>>, i: int) -> nat {
    count_true(adj[i])
}

/// Every node has exactly `k` neighbours.
pub open spec fn is_regular(adj: Seq<Seq<bool>>, k: nat) -> bool {
    forall|i: int| 0 <= i < adj.len() ==> #[trigger] degree(adj, i) == k
}

/// Every node has at most `k` neighbours.
pub open spec fn degrees_at_most(adj: Seq<Seq<bool>>, k: nat) -> bool {
    forall|i: int| 0 <= i < adj.len() ==> #[trigger] degree(adj, i) <= k
}

/// The table with the edge between `i` and `j` set to `v` on both sides.
pub open spec fn set_edge(adj: Seq<Seq<bool>>, i: int, j: int, v: bool) -> Seq<Seq<bool>> {
    let a1 = adj.update(i, adj[i].update(j, v));
    a1.update(j, a1[j].update(i, v))
}

/// The pair `{i, j}` forms a motif: connected with exactly one common
/// neighbour (a triangle), or unconnected with exactly two (a square).
pub open spec fn fits(adj: Seq<Seq<bool>>, i: int, j: int) -> bool {
    let c = common_count(adj[i], adj[j]);
    if c == 1 {
        adj[i][j]
    } else {
        c == 2 && !adj[i][j]
    }
}

/// The pairs `(i, j)` with `start <= i < j < n`, in lexicographic order.
pub open spec fn pairs_from(n: nat, start: nat) -> Seq<(usize, usize)>
    decreases n - start,
{
    if start >= n {
        Seq::empty()
    } else {
        Seq::new((n - start - 1) as nat, |k: int| (start as usize, (start + 1 + k) as usize))
            + pairs_from(n, start + 1)
    }
}

/// All unordered pairs of `0..n`, each once as `(i, j)` with `i < j`, in
/// lexicographic order.
pub open spec fn pair_seq(n: nat) -> Seq<(usize, usize)> {
    pairs_from(n, 0)
}

/// Number of entries of `pairs` that form a motif.
pub open spec fn motif_count(adj: Seq<Seq<bool>>, pairs: Seq<(usize, usize)>) -> nat
    decreases pairs.len(),
{
    if pairs.len() == 0 {
        0
    } else {
        let p = pairs.last();
        motif_count(adj, pairs.drop_last()) + if fits(adj, p.0 as int, p.1 as int) {
            1nat
        } else {
            0nat
        }
    }
}

/// The cost of a graph: a base value lowered by `weight` for every motif pair.
pub open spec fn cost_of(adj: Seq<Seq<bool>>, base: int, weight: int) -> int {
    base - weight * motif_count(adj, pair_seq(adj.len()))
}

pub proof fn lemma_count_true_bound(s: Seq<bool>)
    ensures
        count_true(s) <= s.len(),
    decreases s.len(),
{
    if s.len() > 0 {
        lemma_count_true_bound(s.drop_last());
    }
}

pub proof fn lemma_count_true_update(s: Seq<bool>, i: int, v: bool)
    requires
        0 <= i < s.len(),
    ensures
        count_true(s.update(i, v)) + (if s[i] { 1int } else { 0int }) == count_true(s) + (if v {
            1int
        } else {
            0int
        }),
    decreases s.len(),
{
    let t = s.update(i, v);
    if i == s.len() - 1 {
        assert(t.drop_last() =~= s.drop_last());
    } else {
        assert(t.drop_last() =~= s.drop_last().update(i, v));
        lemma_count_true_update(s.drop_last(), i, v);
    }
}

pub proof fn lemma_count_true_prefix(s: Seq<bool>, i: int)
    requires
        0 <= i < s.len(),
    ensures
        count_true(s.take(i + 1)) == count_true(s.take(i)) + if s[i] { 1nat } else { 0nat },
{
    assert(s.take(i + 1).drop_last() =~= s.take(i));
}

pub proof fn lemma_count_true_all_false(n: nat)
    ensures
        count_true(Seq::new(n, |k: int| false)) == 0,
    decreases n,
{
    if n > 0 {
        assert(Seq::new(n, |k: int| false).drop_last() =~= Seq::new((n - 1) as nat, |k: int| false));
        lemma_count_true_all_false((n - 1) as nat);
    }
}

pub proof fn lemma_count_true_all_true(n: nat)
    ensures
        count_true(Seq::new(n, |k: int| true)) == n,
    decreases n,
{
    if n > 0 {
        assert(Seq::new(n, |k: int| true).drop_last() =~= Seq::new((n - 1) as nat, |k: int| true));
        lemma_count_true_all_true((n - 1) as nat);
    }
}

/// A row with two unset positions has at most `len - 2` set.
pub proof fn lemma_count_true_two_false(s: Seq<bool>, p: int, q: int)
    requires
        0 <= p < s.len(),
        0 <= q < s.len(),
        p != q,
        !s[p],
        !s[q],
    ensures
        count_true(s) + 2 <= s.len(),
{
    lemma_count_true_update(s, p, true);
    lemma_count_true_update(s.update(p, true), q, true);
    lemma_count_true_bound(s.update(p, true).update(q, true));
}

} // verus!
