//! The solver: a strategy paired with an ordering. It runs the search,
//! measures the wall clock around it, and packages counters and the
//! reconstructed move path into a [`Solution`].

use std::time::Instant;

use vstd::prelude::*;

use crate::algorithm::{Algorithm, AlgorithmCommon, zeroed};
use crate::astar::AStar;
use crate::bfs::Bfs;
use crate::board::{
    board_ok, lemma_spec_dim, one_move_solvable, replay, replay_ok, solved_seq, spec_dim,
};
use crate::dfs::Dfs;
use crate::direction::Dir;
use crate::node::{Node, lemma_path_replay, lemma_round_trip};
use crate::order::Order;
use crate::problem::Problem;
use crate::solution::Solution;

verus! {

broadcast use crate::node::lemma_like_node;

#[verifier::external_type_specification]
#[verifier::external_body]
pub struct ExInstant(Instant);

/// Relies on `Instant::now`: an opaque reading of the monotonic clock.
/// Nothing can be promised of a clock.
#[verifier::external_body]
fn instant_now() -> Instant {
    Instant::now()
}

/// Relies on `Instant::elapsed`: the time since `start` was taken,
/// converted to whole microseconds and truncated to 64 bits. Nothing
/// can be promised of a clock.
#[verifier::external_body]
fn elapsed_micros(start: &Instant) -> u64 {
    start.elapsed().as_micros() as u64
}

/// A strategy instance together with the ordering it will be run under.
pub struct Solver<T: Algorithm> {
    pub order: Order,
    pub algorithm: T,
}

pub type BfsSolver = Solver<Bfs>;

pub type DfsSolver = Solver<Dfs>;

pub type AStarSolver = Solver<AStar>;

/// The three solver kinds behind one tag, for call sites that treat
/// them uniformly.
pub enum SolverEnum {
    Bfs(BfsSolver),
    Dfs(DfsSolver),
    AStar(AStarSolver),
}

impl SolverEnum {
    /// The ordering the wrapped solver was configured with.
    pub open spec fn order_of(self) -> Order {
        match self {
            SolverEnum::Bfs(s) => s.order,
            SolverEnum::Dfs(s) => s.order,
            SolverEnum::AStar(s) => s.order,
        }
    }

    /// The wrapped solver's run counters.
    pub open spec fn counters_of(self) -> AlgorithmCommon {
        match self {
            SolverEnum::Bfs(s) => s.algorithm.common(),
            SolverEnum::Dfs(s) => s.algorithm.common(),
            SolverEnum::AStar(s) => s.algorithm.common(),
        }
    }
}

impl Clone for SolverEnum {
    /// Duplicates the configuration; the clone starts a fresh strategy
    /// of the same kind, with zeroed counters.
    fn clone(&self) -> (r: Self)
        ensures
            r.order_of() == self.order_of(),
            r.counters_of() == zeroed(),
            (r is Bfs) == (self is Bfs),
            (r is Dfs) == (self is Dfs),
            (r is AStar) == (self is AStar),
    {
        match self {
            SolverEnum::Bfs(s) => SolverEnum::Bfs(s.clone()),
            SolverEnum::Dfs(s) => SolverEnum::Dfs(s.clone()),
            SolverEnum::AStar(s) => SolverEnum::AStar(s.clone()),
        }
    }
}

impl<T: Algorithm> Clone for Solver<T> {
    /// Duplicates the ordering; the clone starts a fresh strategy with
    /// zeroed counters.
    fn clone(&self) -> (r: Self)
        ensures
            r.order == self.order,
            r.algorithm.common() == zeroed(),
    {
        Solver { order: self.order, algorithm: T::new() }
    }
}

impl<T: Algorithm> Solver<T> {
    /// A fresh solver for the given ordering.
    pub fn new(order: Order) -> (r: Self)
        ensures
            r.order == order,
            r.algorithm.common() == zeroed(),
    {
        Solver { algorithm: T::new(), order }
    }

    /// Runs the strategy on `problem` and reports counters, duration
    /// and the move path. A returned path truly solves the instance:
    /// replaying it from the start board, one legal move at a time,
    /// reaches the canonical solved board. The reported counters are
    /// exactly the strategy's own after the run; a failed run changes
    /// nothing but the reached depth, which it leaves at the `-1`
    /// sentinel.
    pub fn solve(&mut self, problem: Problem) -> (r: Option<Solution>)
        requires
            T::accepts(old(self).order),
            board_ok(problem.flat()),
        ensures
            final(self).order == old(self).order,
            r matches Some(s) ==> {
                let start = problem.flat();
                &&& s.result_len == s.path@.len()
                &&& s.result_len <= T::depth_bound()
                &&& s.reached_depth == s.result_len as i16
                &&& replay_ok(start, spec_dim(start), s.path@)
                &&& replay(start, spec_dim(start), s.path@) == solved_seq(start.len() as int)
                &&& s.visited_count == final(self).algorithm.common().visited_count
                &&& s.processed_count == final(self).algorithm.common().processed_count
                &&& s.reached_depth == final(self).algorithm.common().reached_depth
                &&& s.result_len == final(self).algorithm.common().result_len
                &&& s.path@.len() > 0 ==> s.visited_count >= 1 && s.processed_count >= 1
            },
            problem.flat() == solved_seq(problem.flat().len() as int) ==> (r matches Some(s)
                && s.result_len == 0 && s.path@.len() == 0 && s.reached_depth == 0
                && s.visited_count == 0 && s.processed_count == 0),
            problem.flat() != solved_seq(problem.flat().len() as int) && one_move_solvable(
                problem.flat(),
            ) ==> (r matches Some(s) && s.result_len == 1 && s.path@.len() == 1),
            r is None ==> final(self).algorithm.common() == (AlgorithmCommon {
                reached_depth: -1i16,
                ..old(self).algorithm.common()
            }) && problem.flat() != solved_seq(problem.flat().len() as int),
    {
        let ghost start = problem.flat();
        let t0 = instant_now();
        let result = self.algorithm.run(problem, &self.order);
        let duration = elapsed_micros(&t0);
        match result {
            Some(result_node) => {
                proof {
                    lemma_path_replay(&result_node);
                    lemma_round_trip(&result_node);
                    lemma_spec_dim(start, result_node.dim as int);
                }
                Some(
                    Solution {
                        visited_count: self.algorithm.get_visited_count(),
                        processed_count: self.algorithm.get_processed_count(),
                        reached_depth: self.algorithm.get_reached_depth(),
                        result_len: self.algorithm.get_result_len(),
                        duration_micros: duration,
                        path: Self::make_path(result_node),
                    },
                )
            },
            None => None,
        }
    }

    /// Reconstructs the move path of a goal state by walking its parent
    /// chain back to the root, then reversing into start-to-goal order.
    pub fn make_path(state: Node) -> (r: Vec<Dir>)
        requires
            state.wf(),
        ensures
            r@ == state.path_moves(),
    {
        let ghost total = state.path_moves();
        let mut directions: Vec<Dir> = Vec::new();
        let mut it = state.dir_iter();
        proof {
            assert(it.current is Some);
            assert(Seq::<Dir>::empty().reverse() =~= Seq::<Dir>::empty());
            assert(state.path_moves() + Seq::<Dir>::empty() =~= state.path_moves());
        }
        let mut done = false;
        while !done
            invariant
                it.wf(),
                !done ==> match it.current {
                    Some(c) => total == (*c).path_moves() + directions@.reverse(),
                    None => total == directions@.reverse(),
                },
                done ==> total == directions@.reverse(),
            decreases (match it.current {
                Some(c) => (*c).depth + 2,
                None => 1int,
            }) + (if done {
                0int
            } else {
                1int
            }),
        {
            let ghost old_it = it;
            let ghost old_dirs = directions@;
            let step = it.next();
            match step {
                Some(d) => {
                    directions.push(d);
                    proof {
                        let ghost c = old_it.current.unwrap();
                        assert((*c).wf());
                        assert((*c).next_move == Some(d));
                        assert((*c).parent is Some);
                        assert((*c).path_moves() == (*(*c).parent.unwrap()).path_moves().push(d));
                        assert((old_dirs.push(d)).reverse() =~= seq![d] + old_dirs.reverse());
                        assert((*(*c).parent.unwrap()).path_moves() + (seq![d]
                            + old_dirs.reverse()) =~= ((*(*c).parent.unwrap()).path_moves().push(
                        d)) + old_dirs.reverse());
                        assert(it.current == (*c).parent);
                        assert((*it.current.unwrap()).depth < (*c).depth);
                    }
                },
                None => {
                    done = true;
                    proof {
                        if old_it.current is Some {
                            let ghost c = old_it.current.unwrap();
                            assert((*c).wf());
                            assert((*c).next_move is None);
                            assert((*c).path_moves() =~= Seq::<Dir>::empty());
                            assert(Seq::<Dir>::empty() + directions@.reverse()
                                =~= directions@.reverse());
                        }
                    }
                },
            }
        }
        let mut out: Vec<Dir> = Vec::new();
        let mut i = directions.len();
        while i > 0
            invariant
                i <= directions@.len(),
                out@.len() == directions@.len() - i,
                forall|k: int|
                    0 <= k < out@.len() ==> out@[k] == directions@[directions@.len() - 1 - k],
            decreases i,
        {
            i = i - 1;
            out.push(directions[i]);
        }
        proof {
            assert(out@ =~= directions@.reverse());
        }
        out
    }
}

} // verus!
