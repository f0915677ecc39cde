//! Local search for degree-regular graphs rich in triangle and square motifs.
//!
//! The graph is stored as one row of adjacency flags per node. A randomised
//! greedy constructor builds a regular graph, a cost evaluator scores it by
//! the node pairs that form a motif, and an annealing solver improves it by
//! degree-preserving edge swaps.

pub mod model;
pub mod graph;
mod outside;
pub mod swap;
pub mod init;
pub mod solver;
