//! The shared face of the three search strategies: the run counters they
//! expose and the contract their `run` entry points obey.

use vstd::prelude::*;

use crate::board::{board_ok, one_move_solvable, solved_seq};
use crate::node::Node;
use crate::order::Order;
use crate::problem::Problem;

verus! {

/// The run counters every strategy exposes: states visited, states
/// expanded, the depth the goal was found at (`-1` when no solution was
/// found within the explored bound), and the solution length.
#[derive(Clone, Copy, Debug, PartialEq, Eq, Structural)]
pub struct AlgorithmCommon {
    pub visited_count: usize,
    pub processed_count: usize,
    pub reached_depth: i16,
    pub result_len: u8,
}

/// All counters at zero, as a fresh strategy starts.
pub open spec fn zeroed() -> AlgorithmCommon {
    AlgorithmCommon { visited_count: 0, processed_count: 0, reached_depth: 0, result_len: 0 }
}

impl AlgorithmCommon {
    /// Fresh counters, all zero.
    pub fn new() -> (r: Self)
        ensures
            r == zeroed(),
    {
        AlgorithmCommon { visited_count: 0, processed_count: 0, reached_depth: 0, result_len: 0 }
    }
}

impl Default for AlgorithmCommon {
    fn default() -> (r: Self)
        ensures
            r == zeroed(),
    {
        AlgorithmCommon::new()
    }
}

/// A search strategy: it consumes a starting instance and an ordering,
/// explores the move graph, and reports a goal node plus counters.
///
/// Whatever the strategy, `run` promises the same shape of result: a
/// returned node is well formed, descends from the given start board,
/// holds the canonical solved board, and sits within the strategy's
/// depth bound; an already-solved start is returned at once with the
/// counters reset to zero; and a failed search changes nothing but the
/// reached depth, which it sets to the `-1` sentinel.
///
/// Success is owed where no dedup slot can interfere: a start one
/// legal move from the goal is always solved, with a path of length
/// one, since every strategy tests a child for the goal before
/// consulting the visited structure. Completeness and shortest-path
/// optimality beyond that are deliberately not part of this contract:
/// every strategy deduplicates by the precomputed 64-bit identity hash
/// alone, as the data model prescribes, so both properties hold
/// exactly when no two distinct boards met by one search share a hash.
/// The hash is an uninterpreted function of the board contents, and
/// boards outnumber 64-bit values, so freedom from collisions can
/// neither be required nor proved; the scenario tests check optimal
/// lengths, success and failure on concrete instances, where the
/// standard hasher does not collide.
pub trait Algorithm: Sized {
    /// The strategy's run counters.
    spec fn common(&self) -> AlgorithmCommon;

    /// Which ordering variant this strategy accepts: a fixed order
    /// naming all four directions for the exhaustive searches, a cost
    /// function for best-first.
    spec fn accepts(order: Order) -> bool;

    /// The largest depth at which this strategy ever reports a goal:
    /// the cutoff for the bounded searches, the whole `u8` range where
    /// none is enforced.
    spec fn depth_bound() -> int;

    /// A fresh strategy instance with zeroed counters.
    fn new() -> (r: Self)
        ensures
            r.common() == zeroed(),
    ;

    /// Runs the search from `state` under `order`.
    fn run(&mut self, state: Problem, order: &Order) -> (r: Option<Node>)
        requires
            Self::accepts(*order),
            board_ok(state.flat()),
        ensures
            r matches Some(n) ==> {
                &&& n.wf()
                &&& n.root_board() == state.flat()
                &&& n.board@ == solved_seq(n.board@.len() as int)
                &&& n.depth <= Self::depth_bound()
                &&& final(self).common().reached_depth == n.depth as i16
                &&& final(self).common().result_len == n.depth
                &&& n.depth > 0 ==> final(self).common().visited_count >= 1
                    && final(self).common().processed_count >= 1
            },
            state.flat() == solved_seq(state.flat().len() as int) ==> (r matches Some(n)
                && n.depth == 0 && n.board@ == state.flat() && final(self).common() == zeroed()),
            state.flat() != solved_seq(state.flat().len() as int) && one_move_solvable(
                state.flat(),
            ) ==> (r matches Some(n) && n.depth == 1),
            r is None ==> final(self).common() == (AlgorithmCommon {
                reached_depth: -1i16,
                ..old(self).common()
            }) && state.flat() != solved_seq(state.flat().len() as int),
    ;

    fn get_reached_depth(&self) -> (r: i16)
        ensures
            r == self.common().reached_depth,
    ;

    fn get_visited_count(&self) -> (r: usize)
        ensures
            r == self.common().visited_count,
    ;

    fn get_processed_count(&self) -> (r: usize)
        ensures
            r == self.common().processed_count,
    ;

    fn get_result_len(&self) -> (r: u8)
        ensures
            r == self.common().result_len,
    ;

    fn set_processed_count(&mut self, count: usize)
        ensures
            final(self).common() == (AlgorithmCommon {
                processed_count: count,
                ..old(self).common()
            }),
    ;

    fn set_visited_count(&mut self, count: usize)
        ensures
            final(self).common() == (AlgorithmCommon {
                visited_count: count,
                ..old(self).common()
            }),
    ;

    fn set_reached_depth(&mut self, depth: i16)
        ensures
            final(self).common() == (AlgorithmCommon {
                reached_depth: depth,
                ..old(self).common()
            }),
    ;

    fn set_result_len(&mut self, len: u8)
        ensures
            final(self).common() == (AlgorithmCommon { result_len: len, ..old(self).common() }),
    ;
}

} // verus!
