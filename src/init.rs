//! Randomised greedy construction of a regular graph, restarted from scratch
//! whenever a pass leaves some node short of the target degree.

use vstd::prelude::*;
use crate::graph::Graph;
use crate::model::{
    count_true, degree, degrees_at_most, is_adjacency, is_regular, lemma_count_true_all_false,
    lemma_count_true_all_true, lemma_count_true_two_false, lemma_count_true_update, set_edge,
};
use crate::graph::lemma_set_edge_adjacency;
use vstd::seq_lib::to_multiset_contains;
use crate::outside::shuffle_ids;
use rand::rngs::StdRng;

verus! {

/// One greedy decision: connect `this` and `c` unless they are the same
/// node or either already has `k` neighbours.
pub open spec fn greedy_step(adj: Seq<Seq<bool>>, this: int, c: int, k: nat) -> Seq<Seq<bool>> {
    if c == this || degree(adj, c) >= k || degree(adj, this) >= k {
        adj
    } else {
        set_edge(adj, this, c, true)
    }
}

/// The table after offering `this` each candidate of `cands` in order.
pub open spec fn greedy(adj: Seq<Seq<bool>>, this: int, cands: Seq<usize>, k: nat) -> Seq<
    Seq<bool>,
>
    decreases cands.len(),
{
    if cands.len() == 0 {
        adj
    } else {
        greedy_step(greedy(adj, this, cands.drop_last(), k), this, cands.last() as int, k)
    }
}

/// The ids `0..n` other than `i`, in increasing order.
pub open spec fn others(n: nat, i: nat) -> Seq<usize> {
    Seq::new((n - 1) as nat, |t: int| (if t < i { t } else { t + 1 }) as usize)
}

/// A full greedy pass: node `i` is offered the candidates `orders[i]`, for
/// each `i` in increasing order.
pub open spec fn greedy_pass(adj: Seq<Seq<bool>>, orders: Seq<Seq<usize>>, k: nat) -> Seq<
    Seq<bool>,
>
    decreases orders.len(),
{
    if orders.len() == 0 {
        adj
    } else {
        greedy(greedy_pass(adj, orders.drop_last(), k), orders.len() - 1, orders.last(), k)
    }
}

/// `orders[i]` is an ordering of the ids `0..n` other than `i`, for each node `i`.
pub open spec fn shuffled_orders(orders: Seq<Seq<usize>>, n: nat) -> bool {
    &&& orders.len() == n
    &&& forall|i: int|
        0 <= i < n ==> (#[trigger] orders[i]).to_multiset() == others(n, i as nat).to_multiset()
}

/// The table of `n` nodes without edges.
pub open spec fn empty_table(n: nat) -> Seq<Seq<bool>> {
    Seq::new(n, |i: int| Seq::new(n, |j: int| false))
}

/// No regular graph of degree `k` on `n` nodes can be built.
pub open spec fn infeasible(n: nat, k: nat) -> bool {
    k >= n || (n * k) % 2 == 1
}

#[derive(Clone, Copy, Debug, PartialEq, Eq, Structural)]
pub enum InitError {
    /// The product of node count and degree is odd, or the degree is not below the node count.
    Infeasible,
    /// Every allowed pass left some node short of the target degree.
    AttemptsExhausted,
}

proof fn lemma_add_edge_degrees(adj: Seq<Seq<bool>>, i: int, j: int, k: nat)
    requires
        is_adjacency(adj),
        0 <= i < adj.len(),
        0 <= j < adj.len(),
        i != j,
        degrees_at_most(adj, k),
        degree(adj, i) < k,
        degree(adj, j) < k,
    ensures
        degrees_at_most(set_edge(adj, i, j, true), k),
{
    let b = set_edge(adj, i, j, true);
    assert forall|p: int| 0 <= p < adj.len() implies #[trigger] degree(b, p) <= k by {
        assert(adj[i].len() == adj.len() && adj[j].len() == adj.len());
        assert(degree(adj, p) <= k);
        if p == i {
            assert(b[p] == adj[i].update(j, true));
            lemma_count_true_update(adj[i], j, true);
        } else if p == j {
            assert(b[p] == adj[j].update(i, true));
            lemma_count_true_update(adj[j], i, true);
        } else {
            assert(b[p] == adj[p]);
        }
    }
}

impl Graph {
    /// Offers `this` each candidate in order, connecting the two whenever
    /// both are still below degree `k`.
    pub fn connect_candidates(&mut self, this: usize, candidates: &Vec<usize>, k: usize)
        requires
            old(self).wf(),
            this < old(self).size(),
            forall|t: int| 0 <= t < candidates.len() ==> #[trigger] candidates@[t] < old(self).size(),
            degrees_at_most(old(self).adj(), k as nat),
        ensures
            final(self).wf(),
            final(self).size() == old(self).size(),
            final(self).adj() == greedy(old(self).adj(), this as int, candidates@, k as nat),
            degrees_at_most(final(self).adj(), k as nat),
    {
        let ghost adj0 = self.adj();
        let ghost cands = candidates@;
        let mut idx: usize = 0;
        while idx < candidates.len()
            invariant
                idx <= cands.len(),
                cands == candidates@,
                self.wf(),
                self.size() == adj0.len(),
                this < self.size(),
                forall|t: int| 0 <= t < cands.len() ==> #[trigger] cands[t] < adj0.len(),
                self.adj() == greedy(adj0, this as int, cands.take(idx as int), k as nat),
                degrees_at_most(self.adj(), k as nat),
            decreases cands.len() - idx,
        {
            let c = candidates[idx];
            proof {
                assert(cands.take(idx as int + 1).drop_last() =~= cands.take(idx as int));
            }
            if c != this && self.degree(c) < k && self.degree(this) < k {
                proof {
                    lemma_add_edge_degrees(self.adj(), this as int, c as int, k as nat);
                }
                self.add_edge(this, c);
            }
            idx = idx + 1;
        }
        assert(cands.take(idx as int) =~= cands);
    }

    /// One greedy pass with the given candidate orders: node `i` is offered
    /// the ids of `orders[i]` in turn.
    pub fn connect_in_orders(&mut self, orders: &Vec<Vec<usize>>, k: usize)
        requires
            old(self).wf(),
            orders.len() <= old(self).size(),
            forall|i: int, t: int|
                0 <= i < orders.len() && 0 <= t < orders@[i].len() ==> #[trigger] orders@[i]@[t]
                    < old(self).size(),
            degrees_at_most(old(self).adj(), k as nat),
        ensures
            final(self).wf(),
            final(self).size() == old(self).size(),
            final(self).adj() == greedy_pass(old(self).adj(), orders.deep_view(), k as nat),
            degrees_at_most(final(self).adj(), k as nat),
    {
        let ghost adj0 = self.adj();
        let ghost all = orders.deep_view();
        let mut i: usize = 0;
        while i < orders.len()
            invariant
                i <= orders.len(),
                all == orders.deep_view(),
                orders.len() <= self.size(),
                self.size() == adj0.len(),
                self.wf(),
                forall|q: int, t: int|
                    0 <= q < orders.len() && 0 <= t < orders@[q].len() ==> #[trigger] orders@[q]@[t]
                        < adj0.len(),
                self.adj() == greedy_pass(adj0, all.take(i as int), k as nat),
                degrees_at_most(self.adj(), k as nat),
            decreases orders.len() - i,
        {
            proof {
                assert(all.take(i as int + 1).drop_last() =~= all.take(i as int));
                assert(all[i as int] == orders@[i as int]@);
            }
            self.connect_candidates(i, &orders[i], k);
            i = i + 1;
        }
        assert(all.take(i as int) =~= all);
    }

    /// The other ids of the graph, in increasing order.
    fn other_ids(&self, i: usize) -> (r: Vec<usize>)
        requires
            self.wf(),
            i < self.size(),
        ensures
            r@ == others(self.size(), i as nat),
    {
        let n = self.nodes.len();
        let mut candidates: Vec<usize> = Vec::new();
        let mut t: usize = 0;
        while t < n
            invariant
                t <= n,
                i < n,
                n == self.size(),
                self.wf(),
                candidates@ == others(n as nat, i as nat).take(if t <= i { t as int } else { t - 1 }),
            decreases n - t,
        {
            let other = self.node_ids[t];
            if other != i {
                candidates.push(other);
            }
            t = t + 1;
            assert(candidates@ =~= others(n as nat, i as nat).take(
                if t <= i { t as int } else { t - 1 },
            ));
        }
        assert(candidates@ =~= others(n as nat, i as nat));
        candidates
    }

    /// One greedy pass: every node in turn is offered all other nodes in a
    /// freshly shuffled order.
    pub fn soln_initialiser(&mut self, k: usize, rng: &mut StdRng)
        requires
            old(self).wf(),
            degrees_at_most(old(self).adj(), k as nat),
        ensures
            final(self).wf(),
            final(self).size() == old(self).size(),
            degrees_at_most(final(self).adj(), k as nat),
            exists|orders: Seq<Seq<usize>>|
                #[trigger] shuffled_orders(orders, old(self).size()) && final(self).adj()
                    == greedy_pass(old(self).adj(), orders, k as nat),
    {
        let n = self.nodes.len();
        let mut orders: Vec<Vec<usize>> = Vec::new();
        let mut i: usize = 0;
        while i < n
            invariant
                i <= n,
                n == self.size(),
                self.wf(),
                orders.len() == i,
                forall|q: int|
                    0 <= q < i ==> (#[trigger] orders@[q])@.to_multiset() == others(
                        n as nat,
                        q as nat,
                    ).to_multiset(),
                forall|q: int, t: int|
                    0 <= q < i && 0 <= t < orders@[q].len() ==> #[trigger] orders@[q]@[t] < n,
            decreases n - i,
        {
            let mut candidates = self.other_ids(i);
            let ghost before = candidates@;
            shuffle_ids(&mut candidates, rng);
            proof {
                assert forall|t: int| 0 <= t < candidates.len() implies #[trigger] candidates@[t]
                    < n by {
                    let v = candidates@[t];
                    assert(candidates@.contains(v));
                    vstd::seq_lib::to_multiset_contains(candidates@, v);
                    vstd::seq_lib::to_multiset_contains(before, v);
                    let w = choose|w: int| 0 <= w < before.len() && before[w] == v;
                    assert(before[w] < n);
                }
            }
            orders.push(candidates);
            i = i + 1;
        }
        self.connect_in_orders(&orders, k);
        proof {
            let all = orders.deep_view();
            assert forall|q: int| 0 <= q < all.len() implies (#[trigger] all[q]).to_multiset()
                == others(n as nat, q as nat).to_multiset() by {
                assert(all[q] == orders@[q]@);
            }
            assert(shuffled_orders(all, n as nat));
        }
    }

    /// Builds a graph in which every node has exactly `k` neighbours,
    /// making up to `max_attempts` greedy passes, each from an empty graph.
    pub fn initialise_soln(&mut self, k: usize, max_attempts: u64, rng: &mut StdRng) -> (r: Result<
        (),
        InitError,
    >)
        requires
            old(self).wf(),
        ensures
            final(self).wf(),
            final(self).size() == old(self).size(),
            r matches Err(InitError::Infeasible) <==> infeasible(old(self).size(), k as nat),
            r matches Err(InitError::Infeasible) ==> final(self).adj() == old(self).adj(),
            !infeasible(old(self).size(), k as nat) && max_attempts == 0 ==> {
                &&& r matches Err(InitError::AttemptsExhausted)
                &&& final(self).adj() == old(self).adj()
            },
            !infeasible(old(self).size(), k as nat) && max_attempts > 0 ==> exists|orders: Seq<Seq<usize>>|
                #[trigger] shuffled_orders(orders, old(self).size()) && final(self).adj()
                    == greedy_pass(empty_table(old(self).size()), orders, k as nat),
            r is Ok <==> {
                &&& !infeasible(old(self).size(), k as nat)
                &&& max_attempts > 0
                &&& is_regular(final(self).adj(), k as nat)
            },
            !infeasible(old(self).size(), k as nat) && max_attempts > 0 && (k == 0 || k + 1
                == old(self).size()) ==> r is Ok,
    {
        let n = self.nodes.len();
        proof {
            vstd::arithmetic::div_mod::lemma_mul_mod_noop_general(n as int, k as int, 2);
            assert((n * k) % 2 == 1 <==> (n % 2 == 1 && k % 2 == 1)) by {
                if n % 2 == 1 && k % 2 == 1 {
                    assert((n % 2) * (k % 2) == 1);
                } else {
                    assert((n % 2) * (k % 2) == 0) by (nonlinear_arith)
                        requires
                            n % 2 == 0 || k % 2 == 0,
                    ;
                }
            }
        }
        if k >= n || (n % 2 == 1 && k % 2 == 1) {
            return Err(InitError::Infeasible);
        }
        let mut attempt: u64 = 0;
        while attempt < max_attempts
            invariant
                self.wf(),
                self.size() == n,
                n == old(self).size(),
                !infeasible(n as nat, k as nat),
                attempt <= max_attempts,
                attempt == 0 ==> self.adj() == old(self).adj(),
                attempt > 0 ==> !is_regular(self.adj(), k as nat),
                attempt > 0 ==> exists|orders: Seq<Seq<usize>>|
                    #[trigger] shuffled_orders(orders, n as nat) && self.adj() == greedy_pass(
                        empty_table(n as nat),
                        orders,
                        k as nat,
                    ),
                k == 0 || k + 1 == n ==> attempt == 0,
            decreases max_attempts - attempt,
        {
            self.clear_edges();
            proof {
                let adj = self.adj();
                assert(adj =~~= empty_table(n as nat));
                assert forall|p: int| 0 <= p < adj.len() implies #[trigger] degree(adj, p)
                    <= k by {
                    assert(adj[p] =~= Seq::new(n as nat, |t: int| false));
                    crate::model::lemma_count_true_all_false(n as nat);
                }
            }
            self.soln_initialiser(k, rng);
            proof {
                if k == 0 || k + 1 == n {
                    let orders = choose|orders: Seq<Seq<usize>>|
                        #[trigger] shuffled_orders(orders, n as nat) && self.adj() == greedy_pass(
                            empty_table(n as nat),
                            orders,
                            k as nat,
                        );
                    lemma_greedy_pass_regular_extremes(n as nat, orders, k as nat);
                    assert(is_regular(self.adj(), k as nat));
                }
            }
            if self.check_num_edges(k) {
                return Ok(());
            }
            attempt = attempt + 1;
        }
        Err(InitError::AttemptsExhausted)
    }
}

proof fn lemma_greedy_zero(adj: Seq<Seq<bool>>, this: int, cands: Seq<usize>)
    ensures
        greedy(adj, this, cands, 0) == adj,
    decreases cands.len(),
{
    if cands.len() > 0 {
        lemma_greedy_zero(adj, this, cands.drop_last());
    }
}

proof fn lemma_greedy_pass_zero(adj: Seq<Seq<bool>>, orders: Seq<Seq<usize>>)
    ensures
        greedy_pass(adj, orders, 0) == adj,
    decreases orders.len(),
{
    if orders.len() > 0 {
        lemma_greedy_pass_zero(adj, orders.drop_last());
        lemma_greedy_zero(adj, orders.len() - 1, orders.last());
    }
}

/// In a simple graph, a node of degree at least `n - 1` is connected to
/// every other node.
proof fn lemma_full_degree(adj: Seq<Seq<bool>>, p: int, q: int)
    requires
        is_adjacency(adj),
        0 <= p < adj.len(),
        0 <= q < adj.len(),
        p != q,
        degree(adj, p) + 1 >= adj.len(),
    ensures
        adj[p][q],
{
    if !adj[p][q] {
        assert(!adj[p][p]);
        assert(adj[p].len() == adj.len());
        lemma_count_true_two_false(adj[p], p, q);
    }
}

/// With degree `n - 1`, offering `this` its candidates connects it to each
/// of them, and no edge is ever removed.
proof fn lemma_greedy_complete(adj: Seq<Seq<bool>>, this: int, cands: Seq<usize>, k: nat)
    requires
        is_adjacency(adj),
        k + 1 == adj.len(),
        0 <= this < adj.len(),
        forall|t: int| 0 <= t < cands.len() ==> #[trigger] cands[t] < adj.len(),
        degrees_at_most(adj, k),
    ensures
        is_adjacency(greedy(adj, this, cands, k)),
        greedy(adj, this, cands, k).len() == adj.len(),
        degrees_at_most(greedy(adj, this, cands, k), k),
        forall|x: int, y: int|
            0 <= x < adj.len() && 0 <= y < adj.len() && adj[x][y] ==> #[trigger] greedy(
                adj,
                this,
                cands,
                k,
            )[x][y],
        forall|t: int|
            0 <= t < cands.len() && cands[t] != this ==> #[trigger] greedy(adj, this, cands, k)[this][cands[t] as int],
    decreases cands.len(),
{
    if cands.len() > 0 {
        let pre = cands.drop_last();
        lemma_greedy_complete(adj, this, pre, k);
        let g0 = greedy(adj, this, pre, k);
        let g = greedy(adj, this, cands, k);
        let c = cands.last() as int;
        assert(c == cands[cands.len() - 1]);
        if c == this || degree(g0, c) >= k || degree(g0, this) >= k {
            assert(g == g0);
            if c != this {
                if degree(g0, c) >= k {
                    lemma_full_degree(g0, c, this);
                    assert(g0[c][this] == g0[this][c]);
                } else {
                    lemma_full_degree(g0, this, c);
                }
            }
        } else {
            assert(g == set_edge(g0, this, c, true));
            lemma_set_edge_adjacency(g0, this, c, true);
            lemma_add_edge_degrees(g0, this, c, k);
            assert forall|x: int, y: int|
                0 <= x < adj.len() && 0 <= y < adj.len() && g0[x][y] implies g[x][y] by {
                assert(g0[x].len() == adj.len());
                assert(g0[this].len() == adj.len());
                assert(g0[c].len() == adj.len());
            }
            assert(g0[this].len() == adj.len());
        }
        assert forall|t: int| 0 <= t < cands.len() && cands[t] != this implies #[trigger] g[this][cands[t] as int] by {
            if t < pre.len() {
                assert(cands[t] == pre[t]);
                assert(g0[this][pre[t] as int]);
            }
        }
    }
}

proof fn lemma_greedy_pass_complete(adj: Seq<Seq<bool>>, orders: Seq<Seq<usize>>, k: nat)
    requires
        is_adjacency(adj),
        k + 1 == adj.len(),
        degrees_at_most(adj, k),
        orders.len() <= adj.len(),
        forall|i: int, t: int|
            0 <= i < orders.len() && 0 <= t < orders[i].len() ==> #[trigger] orders[i][t] < adj.len(),
    ensures
        is_adjacency(greedy_pass(adj, orders, k)),
        greedy_pass(adj, orders, k).len() == adj.len(),
        degrees_at_most(greedy_pass(adj, orders, k), k),
        forall|i: int, t: int|
            0 <= i < orders.len() && 0 <= t < orders[i].len() && orders[i][t] != i
                ==> #[trigger] greedy_pass(adj, orders, k)[i][orders[i][t] as int],
    decreases orders.len(),
{
    if orders.len() > 0 {
        let pre = orders.drop_last();
        let last = orders.len() - 1;
        assert forall|i: int, t: int| 0 <= i < pre.len() && 0 <= t < pre[i].len() implies #[trigger] pre[i][t] < adj.len() by {
            assert(pre[i] == orders[i]);
        }
        lemma_greedy_pass_complete(adj, pre, k);
        let g0 = greedy_pass(adj, pre, k);
        assert forall|t: int| 0 <= t < orders.last().len() implies #[trigger] orders.last()[t] < adj.len() by {
            assert(orders.last()[t] == orders[last][t]);
        }
        lemma_greedy_complete(g0, last, orders.last(), k);
        let g = greedy_pass(adj, orders, k);
        assert forall|i: int, t: int|
            0 <= i < orders.len() && 0 <= t < orders[i].len() && orders[i][t] != i implies #[trigger] g[i][orders[i][t] as int] by {
            if i < last {
                assert(orders[i] == pre[i]);
                assert(g0[i][pre[i][t] as int]);
                assert(g0[i].len() == adj.len());
            } else {
                assert(orders[i] == orders.last());
            }
        }
    }
}

/// The two degrees for which a single greedy pass always succeeds: with
/// degree 0 nothing is connected, and with degree `n - 1` every node is
/// connected to every other, whatever the candidate orders.
pub proof fn lemma_greedy_pass_regular_extremes(n: nat, orders: Seq<Seq<usize>>, k: nat)
    requires
        shuffled_orders(orders, n),
        k == 0 || k + 1 == n,
        n <= usize::MAX,
    ensures
        is_regular(greedy_pass(empty_table(n), orders, k), k),
{
    let e = empty_table(n);
    lemma_count_true_all_false(n);
    assert forall|p: int| 0 <= p < n implies #[trigger] degree(e, p) == 0 by {
        assert(e[p] == Seq::new(n, |t: int| false));
    }
    if k == 0 {
        lemma_greedy_pass_zero(e, orders);
    } else {
        assert forall|i: int, t: int|
            0 <= i < orders.len() && 0 <= t < orders[i].len() implies #[trigger] orders[i][t] < n by {
            let v = orders[i][t];
            assert(orders[i].contains(v));
            to_multiset_contains(orders[i], v);
            to_multiset_contains(others(n, i as nat), v);
            let o = others(n, i as nat);
            let w = choose|w: int| 0 <= w < o.len() && #[trigger] o[w] == v;
            assert(o[w] < n);
        }
        lemma_greedy_pass_complete(e, orders, k);
        let g = greedy_pass(e, orders, k);
        assert forall|p: int| 0 <= p < n implies #[trigger] degree(g, p) == k by {
            assert forall|q: int| 0 <= q < n && q != p implies g[p][q] by {
                let o = others(n, p as nat);
                let w: int = if q < p { q } else { q - 1 };
                assert(o[w] == q);
                assert(o.contains(q as usize));
                to_multiset_contains(o, q as usize);
                to_multiset_contains(orders[p], q as usize);
                let t = choose|t: int| 0 <= t < orders[p].len() && orders[p][t] == q as usize;
                assert(g[p][orders[p][t] as int]);
            }
            assert(g[p].len() == n);
            assert(!g[p][p]);
            assert(g[p].update(p, true) =~= Seq::new(n, |t: int| true));
            lemma_count_true_all_true(n);
            lemma_count_true_update(g[p], p, true);
        }
    }
}

} // verus!
