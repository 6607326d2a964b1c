//! The heuristic best-first (A*) strategy: a frontier ordered by
//! `score = heuristic(board, depth)`, with lazy deletion of stale
//! entries and a visited map of best depths.

use std::collections::HashMap;

use vstd::prelude::*;

use crate::algorithm::{Algorithm, AlgorithmCommon};
use crate::board::{
    board_ok, child_board, lemma_child_board_ok, lemma_spec_dim, one_move_solvable, solved_seq,
    spec_can_move, spec_dim,
};
use crate::direction::{Dir, covers_all};
use crate::node::{Node, lemma_filter_has};
use crate::order::Order;
use crate::problem::Problem;
use crate::visited::{lemma_visited_measure_insert, lemma_visited_measure_nonneg, visited_measure};

verus! {

broadcast use vstd::std_specs::hash::group_hash_axioms;

/// Best-first search guided by an admissible cost function. No depth
/// bound is enforced; among entries of equal score the frontier's pick
/// is implementation-defined. A popped entry whose recorded best depth
/// has improved since it was pushed is stale and skipped without
/// expansion.
///
/// The optimality this buys rests on the cost function never
/// overestimating, which [`crate::order::lemma_heuristics_admissible`]
/// proves; the optimality itself is not part of [`Algorithm`]'s
/// contract, for the deduplication reason documented there, and is
/// exercised by the concrete tests instead.
pub struct AStar {
    pub common: AlgorithmCommon,
}

impl Algorithm for AStar {
    open spec fn common(&self) -> AlgorithmCommon {
        self.common
    }

    open spec fn accepts(order: Order) -> bool {
        !(order is Perm)
    }

    open spec fn depth_bound() -> int {
        255
    }

    fn new() -> (r: Self) {
        AStar { common: AlgorithmCommon::new() }
    }

    fn run(&mut self, state: Problem, order: &Order) -> (r: Option<Node>) {
        let ghost start = state.flat();
        let current: Node = Node::new(state.get());
        if current.is_solved() {
            self.set_visited_count(0);
            self.set_processed_count(0);
            self.set_reached_depth(0);
            self.set_result_len(0);
            return Some(current);
        }
        // The canonical direction order, reversed, fixes the expansion
        // order: the heuristic alone decides priorities here.
        let dirs: [Dir; 4] = [Dir::Right, Dir::Left, Dir::Down, Dir::Up];
        proof {
            assert(covers_all(dirs@)) by {
                assert(dirs@[0] == Dir::Right);
                assert(dirs@[1] == Dir::Left);
                assert(dirs@[2] == Dir::Down);
                assert(dirs@[3] == Dir::Up);
            }
        }
        let mut visited: HashMap<u64, u8> = HashMap::new();
        let mut open: Vec<(usize, Node)> = Vec::new();
        let h0 = current.hash_code();
        visited.insert(h0, 0);
        // Reading the length back caps the view's size at what a table
        // can report, which the loop's termination measure needs.
        let _ = visited.len();
        let s0 = order.get_heuristic(current.get_board(), 0);
        open.push((s0, current));
        let mut count: usize = 0;
        while open.len() != 0
            invariant
                self.common == old(self).common,
                start == state.flat(),
                board_ok(start),
                start != solved_seq(start.len() as int),
                !(order is Perm),
                covers_all(dirs@),
                visited@.dom().finite(),
                visited@.dom().len() <= usize::MAX,
                visited@.dom().len() >= 1,
                forall|i: int| 0 <= i < open@.len() ==> {
                    let q = #[trigger] open@[i];
                    &&& q.1.wf()
                    &&& q.1.root_board() == start
                    &&& q.1.depth <= 254
                },
                one_move_solvable(start) ==> open@.len() == 1 && open@[0].1.depth == 0
                    && visited@.contains_key(open@[0].1.hash_code) && visited@[open@[0].1.hash_code]
                    == 0,
            decreases visited_measure(visited@) * 2 + open@.len(),
        {
            proof {
                lemma_visited_measure_nonneg(visited@);
            }
            let ghost m0: int = visited_measure(visited@) * 2 + open@.len();
            // Extract a frontier entry of minimal score.
            let mut best: usize = 0;
            let mut bi: usize = 1;
            while bi < open.len()
                invariant
                    open@.len() >= 1,
                    best < open@.len(),
                    bi <= open@.len(),
                decreases open@.len() - bi,
            {
                if open[bi].0 < open[best].0 {
                    best = bi;
                }
                bi = bi + 1;
            }
            let ghost open0 = open@;
            let picked = open.remove(best);
            let current = picked.1;
            proof {
                assert(open0.contains(open0[best as int]));
                assert forall|i: int| 0 <= i < open@.len() implies {
                    let q = #[trigger] open@[i];
                    &&& q.1.wf()
                    &&& q.1.root_board() == start
                    &&& q.1.depth <= 254
                } by {
                    if i < best {
                        assert(open@[i] == open0[i]);
                    } else {
                        assert(open@[i] == open0[i + 1]);
                    }
                }
            }
            if count < usize::MAX {
                count = count + 1;
            }
            // Lazy deletion: skip an entry that a shorter path has
            // superseded.
            let chc = current.hash_code();
            let stale = match visited.get(&chc) {
                Some(e) => current.depth() > *e,
                None => false,
            };
            if stale {
                continue;
            }
            let children = current.get_child_nodes(dirs);
            let mut ci: usize = 0;
            while ci < children.len()
                invariant
                    self.common == old(self).common,
                    start == state.flat(),
                    board_ok(start),
                    start != solved_seq(start.len() as int),
                    !(order is Perm),
                    covers_all(dirs@),
                    visited@.dom().finite(),
                    visited@.dom().len() <= usize::MAX,
                    visited@.dom().len() >= 1,
                    count >= 1,
                    current.wf(),
                    current.depth <= 254,
                    current.root_board() == start,
                    one_move_solvable(start) ==> current.depth == 0,
                    one_move_solvable(start) ==> forall|j: int|
                        0 <= j < ci ==> !((#[trigger] children@[j]).board@ == solved_seq(
                            children@[j].board@.len() as int,
                        )),
                    forall|i: int| 0 <= i < open@.len() ==> {
                        let q = #[trigger] open@[i];
                        &&& q.1.wf()
                        &&& q.1.root_board() == start
                        &&& q.1.depth <= 254
                    },
                    forall|i: int| 0 <= i < children@.len() ==> {
                        let c = #[trigger] children@[i];
                        &&& c.wf()
                        &&& c.root_board() == start
                        &&& c.depth == current.depth + 1
                    },
                    ci <= children@.len(),
                    visited_measure(visited@) * 2 + open@.len() <= m0 - 1,
                decreases children@.len() - ci,
            {
                let child = (&children[ci]).clone();
                proof {
                    crate::node::lemma_like_node(child, children@[ci as int]);
                }
                if child.is_solved() {
                    let cd = child.depth();
                    self.set_visited_count(visited.len());
                    self.set_reached_depth(cd as i16);
                    self.set_result_len(cd);
                    self.set_processed_count(count);
                    return Some(child);
                }
                let depth = child.depth();
                let child_hash = child.hash_code();
                let existing = match visited.get(&child_hash) {
                    Some(e) => *e,
                    None => u8::MAX,
                };
                if depth < existing {
                    proof {
                        lemma_visited_measure_insert(visited@, child_hash, depth);
                    }
                    visited.insert(child_hash, depth);
                    let _ = visited.len();
                    let score = order.get_heuristic(child.get_board(), depth);
                    open.push((score, child));
                }
                ci = ci + 1;
            }
            proof {
                lemma_visited_measure_nonneg(visited@);
                if one_move_solvable(start) {
                    // The root was just expanded and no child was the
                    // goal, yet one legal move solves the start board:
                    // that move's child is among the generated ones.
                    assert(current.board@ == start);
                    lemma_spec_dim(start, current.dim as int);
                    let sdim = spec_dim(start);
                    let d = choose|d: Dir|
                        #[trigger] spec_can_move(start, sdim, d) && child_board(start, sdim, d)
                            == solved_seq(start.len() as int);
                    lemma_child_board_ok(start, sdim, d);
                    lemma_filter_has(dirs@, current.movable(), d);
                    let ms = dirs@.filter(current.movable());
                    let j = choose|j: int| 0 <= j < ms.len() && ms[j] == d;
                    assert(children@[j].board@ == child_board(start, sdim, d));
                    assert(false);
                }
            }
        }
        self.set_reached_depth(-1);
        None
    }

    fn get_reached_depth(&self) -> (r: i16) {
        self.common.reached_depth
    }

    fn get_visited_count(&self) -> (r: usize) {
        self.common.visited_count
    }

    fn get_processed_count(&self) -> (r: usize) {
        self.common.processed_count
    }

    fn get_result_len(&self) -> (r: u8) {
        self.common.result_len
    }

    fn set_processed_count(&mut self, count: usize) {
        self.common.processed_count = count;
    }

    fn set_visited_count(&mut self, count: usize) {
        self.common.visited_count = count;
    }

    fn set_reached_depth(&mut self, depth: i16) {
        self.common.reached_depth = depth;
    }

    fn set_result_len(&mut self, len: u8) {
        self.common.result_len = len;
    }
}

} // verus!
