//! The elementary search move: exchanging one edge endpoint between two
//! nodes, and its exact reversal.

use vstd::prelude::*;
use crate::graph::Graph;
use crate::model::{count_true, degree, is_adjacency, lemma_count_true_update, set_edge};
use crate::graph::lemma_set_edge_adjacency;

verus! {

/// A proposed swap: `first` trades its neighbour `swap_1` for `swap_2`, and
/// `second` trades its neighbour `swap_2` for `swap_1`.
#[derive(Clone, Copy, Debug, PartialEq, Eq, Structural)]
pub struct Swap {
    pub first: usize,
    pub second: usize,
    pub swap_1: usize,
    pub swap_2: usize,
}

/// `k` is a neighbour of `a`, is not a neighbour of `b`, and is not `b` itself.
pub open spec fn exclusive(adj: Seq<Seq<bool>>, a: int, b: int, k: int) -> bool {
    adj[a][k] && !adj[b][k] && k != b
}

pub open spec fn has_exclusive(adj: Seq<Seq<bool>>, a: int, b: int) -> bool {
    exists|k: int| 0 <= k < adj.len() && #[trigger] exclusive(adj, a, b, k)
}

/// `k` is the lowest id that is exclusive to `a` against `b`.
pub open spec fn first_exclusive(adj: Seq<Seq<bool>>, a: int, b: int, k: int) -> bool {
    &&& 0 <= k < adj.len()
    &&& exclusive(adj, a, b, k)
    &&& forall|t: int| 0 <= t < k ==> !#[trigger] exclusive(adj, a, b, t)
}

/// The swap can be applied: both nodes are distinct and each gives up a
/// neighbour that the other lacks.
pub open spec fn valid_swap(adj: Seq<Seq<bool>>, s: Swap) -> bool {
    &&& s.first < adj.len()
    &&& s.second < adj.len()
    &&& s.swap_1 < adj.len()
    &&& s.swap_2 < adj.len()
    &&& s.first != s.second
    &&& exclusive(adj, s.first as int, s.second as int, s.swap_1 as int)
    &&& exclusive(adj, s.second as int, s.first as int, s.swap_2 as int)
}

/// The table after the swap: edges `first-swap_1` and `second-swap_2`
/// become `first-swap_2` and `second-swap_1`.
pub open spec fn swapped(adj: Seq<Seq<bool>>, s: Swap) -> Seq<Seq<bool>> {
    let (a, b, x, y) = (s.first as int, s.second as int, s.swap_1 as int, s.swap_2 as int);
    set_edge(set_edge(set_edge(set_edge(adj, a, x, false), b, y, false), a, y, true), b, x, true)
}

/// The swap that undoes `s`.
pub open spec fn reversal(s: Swap) -> Swap {
    Swap { first: s.first, second: s.second, swap_1: s.swap_2, swap_2: s.swap_1 }
}

proof fn lemma_count_true_move(r: Seq<bool>, x: int, y: int)
    requires
        0 <= x < r.len(),
        0 <= y < r.len(),
        r[x],
        !r[y],
    ensures
        count_true(r.update(x, false).update(y, true)) == count_true(r),
{
    lemma_count_true_update(r, x, false);
    lemma_count_true_update(r.update(x, false), y, true);
}

/// A valid swap keeps the graph simple, keeps every node's degree, and its
/// reversal is valid on the result.
pub proof fn lemma_swap_preserves(adj: Seq<Seq<bool>>, s: Swap)
    requires
        is_adjacency(adj),
        valid_swap(adj, s),
    ensures
        is_adjacency(swapped(adj, s)),
        swapped(adj, s).len() == adj.len(),
        forall|p: int| 0 <= p < adj.len() ==> #[trigger] degree(swapped(adj, s), p) == degree(adj, p),
        valid_swap(swapped(adj, s), reversal(s)),
{
    let (a, b, x, y) = (s.first as int, s.second as int, s.swap_1 as int, s.swap_2 as int);
    assert(!adj[a][a] && !adj[b][b] && !adj[x][x] && !adj[y][y]);
    assert(adj[a][x] == adj[x][a] && adj[b][y] == adj[y][b]);
    assert(adj[a][y] == adj[y][a] && adj[b][x] == adj[x][b]);
    assert(adj[a].len() == adj.len() && adj[b].len() == adj.len());
    assert(adj[x].len() == adj.len() && adj[y].len() == adj.len());
    let a1 = set_edge(adj, a, x, false);
    let a2 = set_edge(a1, b, y, false);
    let a3 = set_edge(a2, a, y, true);
    lemma_set_edge_adjacency(adj, a, x, false);
    lemma_set_edge_adjacency(a1, b, y, false);
    lemma_set_edge_adjacency(a2, a, y, true);
    lemma_set_edge_adjacency(a3, b, x, true);
    let r = swapped(adj, s);
    assert forall|p: int| 0 <= p < adj.len() implies #[trigger] degree(r, p) == degree(adj, p) by {
        if p == a {
            assert(r[p] =~= adj[a].update(x, false).update(y, true));
            lemma_count_true_move(adj[a], x, y);
        } else if p == b {
            assert(r[p] =~= adj[b].update(y, false).update(x, true));
            lemma_count_true_move(adj[b], y, x);
        } else if p == x {
            assert(r[p] =~= adj[x].update(a, false).update(b, true));
            lemma_count_true_move(adj[x], a, b);
        } else if p == y {
            assert(r[p] =~= adj[y].update(b, false).update(a, true));
            lemma_count_true_move(adj[y], b, a);
        } else {
            assert(r[p] == adj[p]);
        }
    }
}

/// Applying a valid swap and then its reversal restores the table exactly.
pub proof fn lemma_swap_round_trip(adj: Seq<Seq<bool>>, s: Swap)
    requires
        is_adjacency(adj),
        valid_swap(adj, s),
    ensures
        swapped(swapped(adj, s), reversal(s)) == adj,
{
    let (a, b, x, y) = (s.first as int, s.second as int, s.swap_1 as int, s.swap_2 as int);
    lemma_swap_preserves(adj, s);
    let back = swapped(swapped(adj, s), reversal(s));
    assert forall|p: int| 0 <= p < adj.len() implies #[trigger] back[p] =~= adj[p] by {
        assert(adj[p].len() == adj.len());
        assert forall|q: int| 0 <= q < adj.len() implies back[p][q] == adj[p][q] by {
            assert(adj[p][q] == adj[q][p]);
        }
    }
    assert(back =~= adj);
}

impl Graph {
    /// Applies a valid swap, on both endpoints of every edge it touches.
    pub fn apply_swap(&mut self, s: Swap)
        requires
            old(self).wf(),
            valid_swap(old(self).adj(), s),
        ensures
            final(self).wf(),
            final(self).adj() == swapped(old(self).adj(), s),
    {
        let ghost adj = self.adj();
        proof {
            assert(!adj[s.first as int][s.first as int]);
            assert(!adj[s.second as int][s.second as int]);
        }
        self.remove_edge(s.first, s.swap_1);
        self.remove_edge(s.second, s.swap_2);
        self.add_edge(s.first, s.swap_2);
        self.add_edge(s.second, s.swap_1);
    }

    /// The lowest id that is a neighbour of `a`, is not a neighbour of `b`,
    /// and is not `b`.
    pub fn first_exclusive_neighbour(&self, a: usize, b: usize) -> (r: Option<usize>)
        requires
            self.wf(),
            a < self.size(),
            b < self.size(),
        ensures
            r matches Some(k) ==> first_exclusive(self.adj(), a as int, b as int, k as int),
            r is None ==> !has_exclusive(self.adj(), a as int, b as int),
    {
        let ghost adj = self.adj();
        let n = self.nodes.len();
        let mut k: usize = 0;
        while k < n
            invariant
                k <= n,
                n == adj.len(),
                adj == self.adj(),
                self.wf(),
                a < n,
                b < n,
                forall|t: int| 0 <= t < k ==> !#[trigger] exclusive(adj, a as int, b as int, t),
            decreases n - k,
        {
            if k != b && self.is_connected(a, k) && !self.is_connected(b, k) {
                return Some(k);
            }
            k = k + 1;
        }
        None
    }

    /// Proposes the swap between `a` and `b`: each gives up its lowest
    /// neighbour that the other lacks. `None` when either has none.
    pub fn find_swap(&self, a: usize, b: usize) -> (r: Option<Swap>)
        requires
            self.wf(),
            a < self.size(),
            b < self.size(),
            a != b,
        ensures
            r matches Some(s) ==> {
                &&& s.first == a
                &&& s.second == b
                &&& first_exclusive(self.adj(), a as int, b as int, s.swap_1 as int)
                &&& first_exclusive(self.adj(), b as int, a as int, s.swap_2 as int)
                &&& valid_swap(self.adj(), s)
            },
            r is None <==> !has_exclusive(self.adj(), a as int, b as int) || !has_exclusive(
                self.adj(),
                b as int,
                a as int,
            ),
    {
        let x = self.first_exclusive_neighbour(a, b);
        let y = self.first_exclusive_neighbour(b, a);
        match (x, y) {
            (Some(swap_1), Some(swap_2)) => Some(Swap { first: a, second: b, swap_1, swap_2 }),
            _ => None,
        }
    }
}

} // verus!
