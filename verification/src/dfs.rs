//! The depth-bounded depth-first strategy: a LIFO frontier whose visited
//! map records the best depth per board hash, so a state is explored
//! again when a shorter path to it turns up.

use std::collections::HashMap;

use vstd::prelude::*;

use crate::MAX_DEPTH;
use crate::algorithm::{Algorithm, AlgorithmCommon};
use crate::board::{
    board_ok, child_board, lemma_child_board_ok, lemma_spec_dim, one_move_solvable, solved_seq,
    spec_can_move, spec_dim,
};
use crate::direction::{Dir, covers_all};
use crate::node::{Node, lemma_filter_has};
use crate::order::Order;
use crate::problem::Problem;
use crate::visited::{lemma_visited_measure_insert, lemma_visited_measure_nonneg, visited_measure};

verus! {

broadcast use vstd::std_specs::hash::group_hash_axioms;

/// Depth-first search with a depth bound. Children are pushed in reverse
/// of the caller's priority order so that popping visits them in that
/// order. Neither complete nor optimal: solutions beyond the bound are
/// missed, and the first solution found need not be shortest.
pub struct Dfs {
    pub common: AlgorithmCommon,
}

impl Algorithm for Dfs {
    open spec fn common(&self) -> AlgorithmCommon {
        self.common
    }

    open spec fn accepts(order: Order) -> bool {
        order matches Order::Perm(ds) && covers_all(ds@)
    }

    open spec fn depth_bound() -> int {
        MAX_DEPTH as int
    }

    fn new() -> (r: Self) {
        Dfs { common: AlgorithmCommon::new() }
    }

    fn run(&mut self, state: Problem, order: &Order) -> (r: Option<Node>) {
        let ghost start = state.flat();
        let current: Node = Node::new(state.get());
        if current.is_solved() {
            self.set_visited_count(0);
            self.set_processed_count(0);
            self.set_reached_depth(0);
            self.set_result_len(0);
            return Some(current);
        }
        let dir_order: [Dir; 4] = match order {
            Order::Perm(dirs) => *dirs,
            _ => unreached(),
        };
        let mut visited: HashMap<u64, u8> = HashMap::new();
        let mut stack: Vec<Node> = Vec::new();
        let h0 = current.hash_code();
        let d0 = current.depth();
        visited.insert(h0, d0);
        // Reading the length back caps the view's size at what a table
        // can report, which the loop's termination measure needs.
        let _ = visited.len();
        stack.push(current);
        let mut count: usize = 0;
        while stack.len() != 0
            invariant
                self.common == old(self).common,
                start == state.flat(),
                board_ok(start),
                start != solved_seq(start.len() as int),
                covers_all(dir_order@),
                visited@.dom().finite(),
                visited@.dom().len() <= usize::MAX,
                visited@.dom().len() >= 1,
                forall|i: int| 0 <= i < stack@.len() ==> {
                    let q = #[trigger] stack@[i];
                    &&& q.wf()
                    &&& q.root_board() == start
                    &&& q.depth <= MAX_DEPTH
                },
                one_move_solvable(start) ==> stack@.len() >= 1 && stack@[stack@.len()
                    - 1].depth == 0,
            decreases visited_measure(visited@) * 2 + stack@.len(),
        {
            proof {
                lemma_visited_measure_nonneg(visited@);
            }
            let ghost m0: int = visited_measure(visited@) * 2 + stack@.len();
            let current = match stack.pop() {
                Some(c) => c,
                None => unreached(),
            };
            if count < usize::MAX {
                count = count + 1;
            }
            if current.depth() >= MAX_DEPTH {
                continue;
            }
            let children = current.get_child_nodes_reverse(dir_order);
            let mut ci: usize = 0;
            while ci < children.len()
                invariant
                    self.common == old(self).common,
                    start == state.flat(),
                    board_ok(start),
                    start != solved_seq(start.len() as int),
                    covers_all(dir_order@),
                    visited@.dom().finite(),
                    visited@.dom().len() <= usize::MAX,
                    visited@.dom().len() >= 1,
                    count >= 1,
                    current.wf(),
                    current.depth < MAX_DEPTH,
                    current.root_board() == start,
                    one_move_solvable(start) ==> current.depth == 0,
                    one_move_solvable(start) ==> forall|j: int|
                        0 <= j < ci ==> !((#[trigger] children@[j]).board@ == solved_seq(
                            children@[j].board@.len() as int,
                        )),
                    forall|i: int| 0 <= i < stack@.len() ==> {
                        let q = #[trigger] stack@[i];
                        &&& q.wf()
                        &&& q.root_board() == start
                        &&& q.depth <= MAX_DEPTH
                    },
                    forall|i: int| 0 <= i < children@.len() ==> {
                        let c = #[trigger] children@[i];
                        &&& c.wf()
                        &&& c.root_board() == start
                        &&& c.depth == current.depth + 1
                    },
                    ci <= children@.len(),
                    visited_measure(visited@) * 2 + stack@.len() <= m0 - 1,
                decreases children@.len() - ci,
            {
                let child = (&children[ci]).clone();
                proof {
                    crate::node::lemma_like_node(child, children@[ci as int]);
                }
                let cd = child.depth();
                // The goal test comes before any look at the dedup map,
                // so a solved child is returned whatever its hash.
                if child.is_solved() {
                    self.set_visited_count(visited.len());
                    self.set_reached_depth(cd as i16);
                    self.set_result_len(cd);
                    self.set_processed_count(count);
                    return Some(child);
                }
                let ch = child.hash_code();
                let known = match visited.get(&ch) {
                    Some(e) => Some(*e),
                    None => None,
                };
                let blocked = match known {
                    Some(e) => cd >= e,
                    None => false,
                };
                if !blocked {
                    proof {
                        lemma_visited_measure_insert(visited@, ch, cd);
                    }
                    visited.insert(ch, cd);
                    let _ = visited.len();
                    stack.push(child);
                }
                ci = ci + 1;
            }
            proof {
                lemma_visited_measure_nonneg(visited@);
                if one_move_solvable(start) {
                    // The root was just expanded and no child was the
                    // goal, yet one legal move solves the start board:
                    // that move's child is among the generated ones.
                    assert(current.board@ == start);
                    lemma_spec_dim(start, current.dim as int);
                    let sdim = spec_dim(start);
                    let d = choose|d: Dir|
                        #[trigger] spec_can_move(start, sdim, d) && child_board(start, sdim, d)
                            == solved_seq(start.len() as int);
                    lemma_child_board_ok(start, sdim, d);
                    lemma_filter_has(dir_order@, current.movable(), d);
                    let ms = dir_order@.filter(current.movable());
                    let j = choose|j: int| 0 <= j < ms.len() && ms[j] == d;
                    let k = ms.len() - 1 - j;
                    assert(children@[k].board@ == child_board(start, sdim, ms[ms.len() - 1 - k]));
                    assert(children@[k].board@ == child_board(start, sdim, d));
                    assert(false);
                }
            }
        }
        self.set_reached_depth(-1);
        None
    }

    fn get_reached_depth(&self) -> (r: i16) {
        self.common.reached_depth
    }

    fn get_visited_count(&self) -> (r: usize) {
        self.common.visited_count
    }

    fn get_processed_count(&self) -> (r: usize) {
        self.common.processed_count
    }

    fn get_result_len(&self) -> (r: u8) {
        self.common.result_len
    }

    fn set_processed_count(&mut self, count: usize) {
        self.common.processed_count = count;
    }

    fn set_visited_count(&mut self, count: usize) {
        self.common.visited_count = count;
    }

    fn set_reached_depth(&mut self, depth: i16) {
        self.common.reached_depth = depth;
    }

    fn set_result_len(&mut self, len: u8) {
        self.common.result_len = len;
    }
}

} // verus!
