use motif_anneal::graph::{Graph, Node};
use motif_anneal::init::InitError;
use motif_anneal::solver::{Solver, StepOutcome};
use motif_anneal::swap::Swap;
use rand::rngs::StdRng;
use rand::SeedableRng;

fn cycle4() -> Graph {
    let mut g = Graph::new(4);
    g.add_edge(0, 1);
    g.add_edge(1, 2);
    g.add_edge(2, 3);
    g.add_edge(3, 0);
    g
}

fn edge_count(g: &Graph) -> usize {
    let mut total = 0;
    for i in 0..g.node_count() {
        total += g.degree(i);
    }
    total / 2
}

fn adjacency(g: &Graph) -> Vec<Vec<bool>> {
    g.nodes.iter().map(|n| n.connections.clone()).collect()
}

fn assert_simple_regular(g: &Graph, k: usize) {
    let n = g.node_count();
    for i in 0..n {
        assert_eq!(g.degree(i), k);
        assert!(!g.is_connected(i, i));
        for j in 0..n {
            assert_eq!(g.is_connected(i, j), g.is_connected(j, i));
        }
    }
}

#[test]
fn node_primitives() {
    let mut node = Node::new(2, 5);
    assert_eq!(node.id, 2);
    assert_eq!(node.connections, vec![false; 5]);
    node.add_connection(4);
    node.add_connection(1);
    node.add_connection(4);
    assert_eq!(node.degree(), 2);
    node.remove_connection(4);
    assert_eq!(node.connections, vec![false, true, false, false, false]);
    node.reset();
    assert_eq!(node.degree(), 0);
}

#[test]
fn new_graph_lists_pairs_in_order() {
    let g = Graph::new(4);
    assert_eq!(g.node_ids, vec![0, 1, 2, 3]);
    assert_eq!(g.node_pairs, vec![(0, 1), (0, 2), (0, 3), (1, 2), (1, 3), (2, 3)]);
    assert_eq!(edge_count(&g), 0);
}

#[test]
fn four_cycle_square_and_neither() {
    let g = cycle4();
    assert_eq!(g.common_neighbour_count(0, 2), 2);
    assert!(!g.is_connected(0, 2));
    assert!(g.neighbour_count_fits(0, 2));
    assert_eq!(g.common_neighbour_count(0, 1), 0);
    assert!(g.is_connected(0, 1));
    assert!(!g.neighbour_count_fits(0, 1));
}

#[test]
fn triangle_motif_counts() {
    // Path 0-1-2 closed by the edge 0-2: the pair {0, 1} is connected and
    // shares exactly the neighbour 2.
    let mut g = Graph::new(4);
    g.add_edge(0, 1);
    g.add_edge(1, 2);
    g.add_edge(0, 2);
    assert!(g.neighbour_count_fits(0, 1));
    assert!(!g.neighbour_count_fits(0, 3));
    assert_eq!(g.motif_pair_count(), 3);
}

#[test]
fn four_cycle_cost() {
    let g = cycle4();
    assert_eq!(g.motif_pair_count(), 2);
    let solver = Solver::new(g, 10000, 10);
    assert_eq!(solver.get_cost(), 9980);
    assert_eq!(solver.soln_cost, 9980);
    assert_eq!(solver.best_ever_cost, 9980);
}

#[test]
fn cost_evaluation_is_repeatable() {
    let mut rng = StdRng::seed_from_u64(11);
    let mut g = Graph::new(9);
    assert_eq!(g.initialise_soln(4, 100_000, &mut rng), Ok(()));
    let solver = Solver::new(g, 10000, 10);
    let first = solver.get_cost();
    let second = solver.get_cost();
    assert_eq!(first, second);
}

#[test]
fn nine_nodes_degree_four() {
    let mut rng = StdRng::seed_from_u64(3);
    let mut g = Graph::new(9);
    assert_eq!(g.initialise_soln(4, 100_000, &mut rng), Ok(()));
    assert_simple_regular(&g, 4);
    assert!(g.check_num_edges(4));
    assert_eq!(edge_count(&g), 18);
}

#[test]
fn zero_iterations_leave_everything_unchanged() {
    let mut rng = StdRng::seed_from_u64(5);
    let mut g = Graph::new(9);
    assert_eq!(g.initialise_soln(4, 100_000, &mut rng), Ok(()));
    let before = adjacency(&g);
    let solver = Solver::new(g, 10000, 10);
    let initial = solver.get_cost();
    assert_eq!(adjacency(&solver.graph), before);
    assert_eq!(solver.soln_cost, initial);
    assert_eq!(solver.best_ever_cost, initial);
}

#[test]
fn search_never_ends_above_initial_cost() {
    let mut rng = StdRng::seed_from_u64(9);
    let mut g = Graph::new(9);
    assert_eq!(g.initialise_soln(4, 100_000, &mut rng), Ok(()));
    let mut solver = Solver::new(g, 10000, 10);
    let initial = solver.soln_cost;
    let mut best = solver.best_ever_cost;
    for round in 0..500 {
        match solver.step(&mut rng) {
            StepOutcome::Worse { current, proposed, .. } => {
                assert!(proposed >= current);
                solver.settle(round % 7 == 0);
            }
            StepOutcome::Improved { cost, .. } => assert_eq!(solver.soln_cost, cost),
            StepOutcome::NoSwap => {}
        }
        assert!(solver.best_ever_cost <= best);
        best = solver.best_ever_cost;
        assert_simple_regular(&solver.graph, 4);
    }
    assert!(solver.best_ever_cost <= initial);
    let snapshot = Solver::new(solver.best_ever_solution, 10000, 10);
    assert_eq!(snapshot.get_cost(), solver.best_ever_cost);
}

#[test]
fn odd_product_is_infeasible() {
    let mut rng = StdRng::seed_from_u64(1);
    let mut g = Graph::new(9);
    assert_eq!(g.initialise_soln(3, 100, &mut rng), Err(InitError::Infeasible));
    let mut g = Graph::new(5);
    assert_eq!(g.initialise_soln(1, 100, &mut rng), Err(InitError::Infeasible));
}

#[test]
fn degree_not_below_node_count_is_infeasible() {
    let mut rng = StdRng::seed_from_u64(1);
    let mut g = Graph::new(4);
    assert_eq!(g.initialise_soln(4, 100, &mut rng), Err(InitError::Infeasible));
    let mut g = Graph::new(4);
    assert_eq!(g.initialise_soln(6, 100, &mut rng), Err(InitError::Infeasible));
}

#[test]
fn no_attempts_allowed_gives_up() {
    let mut rng = StdRng::seed_from_u64(1);
    let mut g = Graph::new(9);
    assert_eq!(g.initialise_soln(4, 0, &mut rng), Err(InitError::AttemptsExhausted));
}

#[test]
fn complete_graph_minus_matching_initialises() {
    let mut rng = StdRng::seed_from_u64(2);
    let mut g = Graph::new(4);
    assert_eq!(g.initialise_soln(2, 100_000, &mut rng), Ok(()));
    assert_simple_regular(&g, 2);
    assert_eq!(edge_count(&g), 4);
}

#[test]
fn find_swap_picks_lowest_exclusive_neighbours() {
    // Path 0-1-2-3-4-5 plus 5-0: a 6-cycle.
    let mut g = Graph::new(6);
    for i in 0..6 {
        g.add_edge(i, (i + 1) % 6);
    }
    // Neighbours of 0: {1, 5}; of 3: {2, 4}.
    assert_eq!(g.first_exclusive_neighbour(0, 3), Some(1));
    assert_eq!(g.first_exclusive_neighbour(3, 0), Some(2));
    assert_eq!(g.find_swap(0, 3), Some(Swap { first: 0, second: 3, swap_1: 1, swap_2: 2 }));
    // Neighbours of 0: {1, 5}; of 1: {0, 2}; 1 is 0's neighbour but is 1 itself.
    assert_eq!(g.first_exclusive_neighbour(0, 1), Some(5));
}

#[test]
fn find_swap_none_on_shared_neighbourhoods() {
    let g = cycle4();
    // Nodes 0 and 2 both have exactly {1, 3}.
    assert_eq!(g.first_exclusive_neighbour(0, 2), None);
    assert_eq!(g.find_swap(0, 2), None);
}

#[test]
fn swap_then_reversal_round_trip() {
    let mut g = Graph::new(6);
    for i in 0..6 {
        g.add_edge(i, (i + 1) % 6);
    }
    let before = adjacency(&g);
    let s = g.find_swap(0, 3).unwrap();
    g.apply_swap(s);
    assert!(!g.is_connected(0, 1));
    assert!(g.is_connected(0, 2));
    assert!(!g.is_connected(3, 2));
    assert!(g.is_connected(3, 1));
    for i in 0..6 {
        assert_eq!(g.degree(i), 2);
    }
    assert_ne!(adjacency(&g), before);
    g.apply_swap(Swap { first: s.first, second: s.second, swap_1: s.swap_2, swap_2: s.swap_1 });
    assert_eq!(adjacency(&g), before);
}

#[test]
fn rejected_step_restores_graph() {
    // Swapping between 0 and 3 on a 6-cycle gives another 6-cycle: no motif
    // either way, so the step is not an improvement.
    let mut g = Graph::new(6);
    for i in 0..6 {
        g.add_edge(i, (i + 1) % 6);
    }
    let before = adjacency(&g);
    let mut solver = Solver::new(g, 10000, 10);
    let cost = solver.soln_cost;
    let outcome = solver.step_with(0, 3);
    let swap = Swap { first: 0, second: 3, swap_1: 1, swap_2: 2 };
    assert_eq!(outcome, StepOutcome::Worse { swap, current: cost, proposed: cost });
    assert_eq!(solver.pending, Some(swap));
    assert_ne!(adjacency(&solver.graph), before);
    solver.settle(false);
    assert_eq!(adjacency(&solver.graph), before);
    assert_eq!(solver.soln_cost, cost);
    assert_eq!(solver.pending, None);
}

#[test]
fn accepted_worse_step_keeps_graph_and_cost() {
    let mut g = Graph::new(6);
    for i in 0..6 {
        g.add_edge(i, (i + 1) % 6);
    }
    let mut solver = Solver::new(g, 10000, 10);
    let best = solver.best_ever_cost;
    let outcome = solver.step_with(0, 3);
    let proposed = match outcome {
        StepOutcome::Worse { proposed, .. } => proposed,
        other => panic!("expected a non-improving step, got {:?}", other),
    };
    let after = adjacency(&solver.graph);
    solver.settle(true);
    assert_eq!(adjacency(&solver.graph), after);
    assert_eq!(solver.soln_cost, proposed);
    assert_eq!(solver.best_ever_cost, best);
    assert_eq!(solver.pending, None);
}

#[test]
fn improving_step_records_best() {
    // The 6-cycle 0-2-3-4-5-1-0 has no motif pair. Swapping between 0 and 4
    // trades edges 0-1 and 4-3 for 0-3 and 4-1, leaving the triangles
    // {0, 2, 3} and {1, 4, 5}: six triangle motifs.
    let mut g = Graph::new(6);
    g.add_edge(0, 2);
    g.add_edge(2, 3);
    g.add_edge(3, 4);
    g.add_edge(4, 5);
    g.add_edge(5, 1);
    g.add_edge(1, 0);
    let mut solver = Solver::new(g, 1000, 10);
    assert_eq!(solver.soln_cost, 1000);
    match solver.step_with(0, 4) {
        StepOutcome::Improved { swap, cost } => {
            assert_eq!(swap, Swap { first: 0, second: 4, swap_1: 1, swap_2: 3 });
            assert_eq!(cost, 940);
            assert_eq!(solver.soln_cost, 940);
            assert_eq!(solver.best_ever_cost, 940);
            assert_eq!(adjacency(&solver.best_ever_solution), adjacency(&solver.graph));
            assert!(solver.graph.is_connected(0, 3));
            assert!(solver.graph.is_connected(4, 1));
        }
        other => panic!("expected an improvement, got {:?}", other),
    }
}

#[test]
fn seeds_vary_the_initial_graph() {
    let mut graphs = Vec::new();
    for seed in 1..=6u64 {
        let mut rng = StdRng::seed_from_u64(seed);
        let mut g = Graph::new(9);
        assert_eq!(g.initialise_soln(4, 100_000, &mut rng), Ok(()));
        assert_simple_regular(&g, 4);
        graphs.push(adjacency(&g));
    }
    assert!(graphs.iter().any(|a| *a != graphs[0]));
}

#[test]
fn same_seed_same_run() {
    let run = |seed: u64| {
        let mut rng = StdRng::seed_from_u64(seed);
        let mut g = Graph::new(9);
        assert_eq!(g.initialise_soln(4, 100_000, &mut rng), Ok(()));
        let mut solver = Solver::new(g, 10000, 10);
        for _ in 0..200 {
            if let StepOutcome::Worse { .. } = solver.step(&mut rng) {
                solver.settle(false);
            }
        }
        (adjacency(&solver.graph), solver.best_ever_cost)
    };
    assert_eq!(run(21), run(21));
}

#[test]
fn step_on_single_node_does_nothing() {
    let mut rng = StdRng::seed_from_u64(4);
    let mut solver = Solver::new(Graph::new(1), 100, 10);
    assert_eq!(solver.step(&mut rng), StepOutcome::NoSwap);
    assert_eq!(solver.soln_cost, 100);
}

#[test]
fn degree_zero_always_initialises() {
    let mut rng = StdRng::seed_from_u64(8);
    let mut g = Graph::new(5);
    assert_eq!(g.initialise_soln(0, 1, &mut rng), Ok(()));
    assert_simple_regular(&g, 0);
}

#[test]
fn complete_graph_initialises_in_one_pass() {
    let mut rng = StdRng::seed_from_u64(8);
    let mut g = Graph::new(5);
    assert_eq!(g.initialise_soln(4, 1, &mut rng), Ok(()));
    assert_simple_regular(&g, 4);
    assert_eq!(edge_count(&g), 10);
}

#[test]
fn rejected_configuration_leaves_graph_unchanged() {
    let mut rng = StdRng::seed_from_u64(1);
    let mut g = Graph::new(5);
    g.add_edge(0, 1);
    let before = adjacency(&g);
    assert_eq!(g.initialise_soln(3, 100, &mut rng), Err(InitError::Infeasible));
    assert_eq!(adjacency(&g), before);
    assert_eq!(g.initialise_soln(5, 100, &mut rng), Err(InitError::Infeasible));
    assert_eq!(adjacency(&g), before);
    assert_eq!(g.initialise_soln(2, 0, &mut rng), Err(InitError::AttemptsExhausted));
    assert_eq!(adjacency(&g), before);
}
