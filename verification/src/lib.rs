//! A verified solver for the sliding-tile (N-puzzle) problem.
//!
//! A board is a flat permutation of the values `0 .. dim*dim`, where `0`
//! marks the blank cell. A [`node::Node`] is a board together with its
//! search metadata: depth, the move that produced it, and a shared link to
//! its parent. Three interchangeable strategies explore the move graph:
//! breadth-first ([`bfs::Bfs`]), depth-bounded depth-first ([`dfs::Dfs`])
//! and heuristic best-first ([`astar::AStar`]), each guided by an
//! [`order::Order`] that fixes either a move priority or a cost function.

use vstd::prelude::*;

pub mod algorithm;
pub mod astar;
pub mod bfs;
pub mod board;
pub mod command;
pub mod dfs;
pub mod direction;
pub mod node;
pub mod order;
pub mod problem;
pub mod solution;
pub mod solver;
pub mod study;
pub mod visited;

verus! {

/// Nodes at this depth are discarded without expansion by the
/// breadth-first and depth-first strategies.
pub const MAX_DEPTH: u8 = 20;

} // verus!
