//! The annealing search as a state machine over integer costs. Each step
//! proposes a swap, applies it and evaluates the result; an improving swap
//! is kept at once, a worsening one waits for the caller's acceptance
//! decision, which depends on the temperature schedule held by the caller.

use vstd::prelude::*;
use crate::graph::Graph;
use crate::model::{cost_of, degree};
use crate::outside::choose_two;
use crate::swap::{
    Swap, first_exclusive, has_exclusive, lemma_swap_preserves, reversal, swapped, valid_swap,
};
use rand::rngs::StdRng;

verus! {

/// What one search step did.
#[derive(Clone, Copy, Debug, PartialEq, Eq, Structural)]
pub enum StepOutcome {
    /// No swap could be formed for the chosen nodes; nothing changed.
    NoSwap,
    /// The swap lowered the cost and was kept.
    Improved { swap: Swap, cost: i128 },
    /// The swap did not lower the cost; it stays applied until `settle`.
    Worse { swap: Swap, current: i128, proposed: i128 },
}

/// The outcome of a search step on nodes `a` and `b`, relating the solver
/// before (`o`) and after (`f`): no swap exactly when one of the nodes has no
/// neighbour to give up, and otherwise the lowest such swap, applied, with
/// the costs updated by the acceptance rule.
pub open spec fn step_result(o: Solver, f: Solver, a: int, b: int, r: StepOutcome) -> bool {
    &&& (r is NoSwap) <==> (!has_exclusive(o.graph.adj(), a, b)
        || !has_exclusive(o.graph.adj(), b, a))
    &&& r is NoSwap ==> {
        &&& f.graph.adj() == o.graph.adj()
        &&& f.soln_cost == o.soln_cost
        &&& f.best_ever_cost == o.best_ever_cost
        &&& f.best_ever_solution.adj() == o.best_ever_solution.adj()
        &&& f.pending is None
    }
    &&& r matches StepOutcome::Improved { swap, cost } ==> {
        &&& swap.first == a
        &&& swap.second == b
        &&& first_exclusive(o.graph.adj(), a, b, swap.swap_1 as int)
        &&& first_exclusive(o.graph.adj(), b, a, swap.swap_2 as int)
        &&& f.graph.adj() == swapped(o.graph.adj(), swap)
        &&& cost == o.cost(f.graph.adj())
        &&& cost < o.soln_cost
        &&& f.soln_cost == cost
        &&& f.pending is None
        &&& if cost < o.best_ever_cost {
            &&& f.best_ever_cost == cost
            &&& f.best_ever_solution.adj() == f.graph.adj()
        } else {
            &&& f.best_ever_cost == o.best_ever_cost
            &&& f.best_ever_solution.adj() == o.best_ever_solution.adj()
        }
    }
    &&& r matches StepOutcome::Worse { swap, current, proposed } ==> {
        &&& swap.first == a
        &&& swap.second == b
        &&& first_exclusive(o.graph.adj(), a, b, swap.swap_1 as int)
        &&& first_exclusive(o.graph.adj(), b, a, swap.swap_2 as int)
        &&& f.graph.adj() == swapped(o.graph.adj(), swap)
        &&& proposed == o.cost(f.graph.adj())
        &&& current == o.soln_cost
        &&& proposed >= current
        &&& f.soln_cost == current
        &&& f.best_ever_cost == o.best_ever_cost
        &&& f.best_ever_solution.adj() == o.best_ever_solution.adj()
        &&& f.pending == Some(swap)
        &&& f.pending_cost == proposed
    }
}

/// The outcome of settling the pending swap: kept with its cost when
/// `accept` holds, reversed otherwise; the best record is untouched.
pub open spec fn settle_result(o: Solver, f: Solver, accept: bool) -> bool {
    &&& f.best_ever_cost == o.best_ever_cost
    &&& f.best_ever_solution.adj() == o.best_ever_solution.adj()
    &&& accept ==> {
        &&& f.graph.adj() == o.graph.adj()
        &&& f.soln_cost == o.pending_cost
    }
    &&& !accept ==> {
        &&& f.graph.adj() == swapped(o.graph.adj(), reversal(o.pending.unwrap()))
        &&& f.soln_cost == o.soln_cost
    }
}

/// One move of the search loop: a step on some pair of nodes, or the
/// settling of a pending swap.
pub open spec fn search_move(o: Solver, f: Solver) -> bool {
    ||| exists|a: int, b: int, r: StepOutcome| #[trigger] step_result(o, f, a, b, r)
    ||| exists|accept: bool| #[trigger] settle_result(o, f, accept)
}

pub struct Solver {
    pub graph: Graph,
    pub base_cost: i64,
    pub motif_weight: i64,
    pub soln_cost: i128,
    pub best_ever_cost: i128,
    pub best_ever_solution: Graph,
    /// A worsening swap that is applied and awaits acceptance or reversal.
    pub pending: Option<Swap>,
    pub pending_cost: i128,
}

impl Solver {
    pub open spec fn cost(&self, adj: Seq<Seq<bool>>) -> int {
        cost_of(adj, self.base_cost as int, self.motif_weight as int)
    }

    /// The recorded costs are those of the graphs they describe, the best
    /// cost never exceeds the current one, and a pending swap can be undone
    /// back to a graph of the current cost.
    pub open spec fn wf(&self) -> bool {
        &&& self.graph.wf()
        &&& self.best_ever_solution.wf()
        &&& self.best_ever_solution.size() == self.graph.size()
        &&& self.best_ever_cost == self.cost(self.best_ever_solution.adj())
        &&& self.best_ever_cost <= self.soln_cost
        &&& match self.pending {
            None => self.soln_cost == self.cost(self.graph.adj()),
            Some(s) => {
                &&& self.pending_cost == self.cost(self.graph.adj())
                &&& self.pending_cost >= self.soln_cost
                &&& valid_swap(self.graph.adj(), reversal(s))
                &&& self.soln_cost == self.cost(swapped(self.graph.adj(), reversal(s)))
            },
        }
    }

    /// A solver over `graph`, with the graph's cost as both the current and
    /// the best cost, and the graph itself as the best solution.
    pub fn new(graph: Graph, base_cost: i64, motif_weight: i64) -> (r: Solver)
        requires
            graph.wf(),
        ensures
            r.wf(),
            r.graph == graph,
            r.base_cost == base_cost,
            r.motif_weight == motif_weight,
            r.soln_cost == r.cost(graph.adj()),
            r.best_ever_cost == r.soln_cost,
            r.best_ever_solution.adj() == graph.adj(),
            r.pending is None,
    {
        let best_ever_solution = graph.snapshot();
        let mut r = Solver {
            graph,
            base_cost,
            motif_weight,
            soln_cost: 0,
            best_ever_cost: 0,
            best_ever_solution,
            pending: None,
            pending_cost: 0,
        };
        let c = r.get_cost();
        r.soln_cost = c;
        r.best_ever_cost = c;
        r.pending_cost = c;
        r
    }

    /// Cost of the current graph: the base cost lowered by the weight for
    /// every motif pair.
    pub fn get_cost(&self) -> (r: i128)
        requires
            self.graph.wf(),
        ensures
            r == self.cost(self.graph.adj()),
    {
        let count = self.graph.motif_pair_count();
        let c = count as i128;
        let w = self.motif_weight as i128;
        let b = self.base_cost as i128;
        proof {
            let m: int = 0x1_0000_0000_0000_0000;
            let h: int = 0x8000_0000_0000_0000;
            assert(0 <= c < m);
            assert(-h <= w < h);
            assert(-(m - 1) * h <= c * w <= (m - 1) * (h - 1)) by (nonlinear_arith)
                requires
                    0 <= c < m,
                    -h <= w < h,
                    m == 0x1_0000_0000_0000_0000,
                    h == 0x8000_0000_0000_0000,
            ;
        }
        b - c * w
    }

    /// One search step on the chosen nodes `a` and `b`: propose the swap
    /// between them, apply it and evaluate the new cost. A strictly lower
    /// cost is accepted, and recorded as the best if it beats the best;
    /// otherwise the swap stays applied and pending.
    pub fn step_with(&mut self, a: usize, b: usize) -> (r: StepOutcome)
        requires
            old(self).wf(),
            old(self).pending is None,
            a < old(self).graph.size(),
            b < old(self).graph.size(),
            a != b,
        ensures
            final(self).wf(),
            final(self).base_cost == old(self).base_cost,
            final(self).motif_weight == old(self).motif_weight,
            final(self).graph.size() == old(self).graph.size(),
            final(self).best_ever_cost <= old(self).best_ever_cost,
            forall|p: int|
                0 <= p < old(self).graph.size() ==> #[trigger] degree(final(self).graph.adj(), p)
                    == degree(old(self).graph.adj(), p),
            step_result(*old(self), *final(self), a as int, b as int, r),
    {
        let ghost adj0 = self.graph.adj();
        let found = self.graph.find_swap(a, b);
        let swap = match found {
            None => {
                return StepOutcome::NoSwap;
            },
            Some(s) => s,
        };
        proof {
            lemma_swap_preserves(adj0, swap);
        }
        self.graph.apply_swap(swap);
        let new_cost = self.get_cost();
        if new_cost < self.soln_cost {
            self.soln_cost = new_cost;
            if new_cost < self.best_ever_cost {
                self.best_ever_cost = new_cost;
                self.best_ever_solution = self.graph.snapshot();
            }
            StepOutcome::Improved { swap, cost: new_cost }
        } else {
            self.pending = Some(swap);
            self.pending_cost = new_cost;
            proof {
                crate::swap::lemma_swap_round_trip(adj0, swap);
            }
            StepOutcome::Worse { swap, current: self.soln_cost, proposed: new_cost }
        }
    }

    /// One search step on two distinct nodes chosen at random; `NoSwap`
    /// when the graph has fewer than two nodes.
    pub fn step(&mut self, rng: &mut StdRng) -> (r: StepOutcome)
        requires
            old(self).wf(),
            old(self).pending is None,
        ensures
            final(self).wf(),
            final(self).base_cost == old(self).base_cost,
            final(self).motif_weight == old(self).motif_weight,
            final(self).graph.size() == old(self).graph.size(),
            final(self).best_ever_cost <= old(self).best_ever_cost,
            forall|p: int|
                0 <= p < old(self).graph.size() ==> #[trigger] degree(final(self).graph.adj(), p)
                    == degree(old(self).graph.adj(), p),
            old(self).graph.size() < 2 ==> r is NoSwap && *final(self) == *old(self),
            old(self).graph.size() >= 2 ==> exists|a: int, b: int|
                0 <= a < old(self).graph.size() && 0 <= b < old(self).graph.size() && a != b
                    && #[trigger] step_result(*old(self), *final(self), a, b, r),
    {
        if self.graph.node_count() < 2 {
            return StepOutcome::NoSwap;
        }
        let picks = choose_two(&self.graph.node_ids, rng);
        let a = picks[0];
        let b = picks[1];
        let ghost before = *self;
        let r = self.step_with(a, b);
        assert(step_result(before, *self, a as int, b as int, r));
        r
    }

    /// Settles a pending swap: keeps it, with its cost as the current cost,
    /// when `accept` holds, and otherwise reverses it exactly.
    pub fn settle(&mut self, accept: bool)
        requires
            old(self).wf(),
            old(self).pending is Some,
        ensures
            final(self).wf(),
            final(self).pending is None,
            final(self).base_cost == old(self).base_cost,
            final(self).motif_weight == old(self).motif_weight,
            final(self).graph.size() == old(self).graph.size(),
            forall|p: int|
                0 <= p < old(self).graph.size() ==> #[trigger] degree(final(self).graph.adj(), p)
                    == degree(old(self).graph.adj(), p),
            settle_result(*old(self), *final(self), accept),
    {
        let swap = match self.pending {
            Some(s) => s,
            None => {
                return;
            },
        };
        self.pending = None;
        if accept {
            self.soln_cost = self.pending_cost;
        } else {
            let back = Swap {
                first: swap.first,
                second: swap.second,
                swap_1: swap.swap_2,
                swap_2: swap.swap_1,
            };
            proof {
                assert(back == reversal(swap));
                lemma_swap_preserves(self.graph.adj(), back);
            }
            self.graph.apply_swap(back);
        }
    }
}

/// The cost evaluator is deterministic: two solvers with the same cost
/// constants whose graphs have the same adjacency evaluate to the same
/// cost, so evaluating an unchanged graph twice gives the same value.
pub proof fn lemma_cost_deterministic(s: Solver, t: Solver)
    requires
        s.graph.wf(),
        t.graph.wf(),
        s.graph.adj() == t.graph.adj(),
        s.base_cost == t.base_cost,
        s.motif_weight == t.motif_weight,
    ensures
        s.cost(s.graph.adj()) == t.cost(t.graph.adj()),
{
}

proof fn lemma_move_keeps_best(o: Solver, f: Solver)
    requires
        search_move(o, f),
    ensures
        f.best_ever_cost <= o.best_ever_cost,
{
    if exists|a: int, b: int, r: StepOutcome| #[trigger] step_result(o, f, a, b, r) {
        let (a, b, r) = choose|a: int, b: int, r: StepOutcome| #[trigger] step_result(o, f, a, b, r);
        match r {
            StepOutcome::NoSwap => {},
            StepOutcome::Improved { .. } => {},
            StepOutcome::Worse { .. } => {},
        }
    } else {
        let accept = choose|accept: bool| #[trigger] settle_result(o, f, accept);
    }
}

/// Over any run of the search, as a sequence of solver states each reached
/// from the previous one by a step or a settle, the best cost never ends
/// above the cost of the initial graph; with no moves it is that cost.
pub proof fn lemma_run_best_not_above_initial(states: Seq<Solver>)
    requires
        states.len() >= 1,
        states[0].best_ever_cost == states[0].soln_cost,
        forall|i: int| 0 <= i < states.len() - 1 ==> #[trigger] search_move(states[i], states[i + 1]),
    ensures
        states.last().best_ever_cost <= states[0].soln_cost,
    decreases states.len(),
{
    if states.len() > 1 {
        let pre = states.drop_last();
        assert forall|i: int| 0 <= i < pre.len() - 1 implies #[trigger] search_move(pre[i], pre[i + 1]) by {
            assert(search_move(states[i], states[i + 1]));
        }
        lemma_run_best_not_above_initial(pre);
        let j = states.len() - 2;
        assert(search_move(states[j], states[j + 1]));
        assert(states[j + 1] == states.last());
        lemma_move_keeps_best(states[j], states[j + 1]);
    }
}

} // verus!
