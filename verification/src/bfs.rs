//! The breadth-first strategy: a FIFO frontier with hash deduplication.

use std::collections::HashSet;
use std::collections::VecDeque;

use vstd::prelude::*;

use crate::MAX_DEPTH;
use crate::algorithm::{Algorithm, AlgorithmCommon};
use crate::board::{
    board_ok, child_board, lemma_child_board_ok, lemma_spec_dim, one_move_solvable, solved_seq,
    spec_can_move, spec_dim,
};
use crate::direction::{Dir, covers_all};
use crate::node::{Node, lemma_filter_has};
use crate::order::Order;
use crate::problem::Problem;
use crate::visited::cap;

verus! {

broadcast use vstd::std_specs::hash::group_hash_axioms;

/// Breadth-first search. Complete and optimal within the depth bound:
/// all edges cost one move, so the first solved state dequeued lies on
/// a shortest path.
pub struct Bfs {
    pub common: AlgorithmCommon,
}

impl Algorithm for Bfs {
    open spec fn common(&self) -> AlgorithmCommon {
        self.common
    }

    open spec fn accepts(order: Order) -> bool {
        order matches Order::Perm(ds) && covers_all(ds@)
    }

    open spec fn depth_bound() -> int {
        MAX_DEPTH as int
    }

    fn new() -> (r: Self) {
        Bfs { common: AlgorithmCommon::new() }
    }

    fn run(&mut self, state: Problem, order: &Order) -> (r: Option<Node>) {
        let ghost start = state.flat();
        let current: Node = Node::new(state.get());
        if current.is_solved() {
            self.set_visited_count(0);
            self.set_processed_count(0);
            self.set_reached_depth(0);
            self.set_result_len(0);
            return Some(current);
        }
        proof {
            lemma_spec_dim(start, current.dim as int);
        }
        let dir_order: [Dir; 4] = match order {
            Order::Perm(dirs) => *dirs,
            _ => unreached(),
        };
        let mut visited: HashSet<u64> = HashSet::new();
        let mut queue: VecDeque<Node> = VecDeque::new();
        let h0 = current.hash_code();
        visited.insert(h0);
        // Reading the length back caps the view's size at what a table
        // can report, which the loop's termination measure needs.
        let _ = visited.len();
        queue.push_back(current);
        let mut count: usize = 0;
        while queue.len() != 0
            invariant
                self.common == old(self).common,
                start == state.flat(),
                board_ok(start),
                start != solved_seq(start.len() as int),
                covers_all(dir_order@),
                visited@.finite(),
                visited@.len() <= usize::MAX,
                visited@.len() >= 1,
                forall|i: int| 0 <= i < queue@.len() ==> {
                    let q = #[trigger] queue@[i];
                    &&& q.wf()
                    &&& q.root_board() == start
                    &&& q.depth <= MAX_DEPTH
                },
                one_move_solvable(start) ==> queue@.len() >= 1 && queue@[0].depth == 0,
            decreases (cap() - visited@.len()) * 2 + queue@.len(),
        {
            let ghost m0: int = (cap() - visited@.len()) * 2 + queue@.len();
            let current = match queue.pop_front() {
                Some(c) => c,
                None => unreached(),
            };
            if count < usize::MAX {
                count = count + 1;
            }
            if current.depth() >= MAX_DEPTH {
                continue;
            }
            let children = current.get_child_nodes(dir_order);
            let mut ci: usize = 0;
            while ci < children.len()
                invariant
                    self.common == old(self).common,
                    start == state.flat(),
                    board_ok(start),
                    start != solved_seq(start.len() as int),
                    covers_all(dir_order@),
                    visited@.finite(),
                    visited@.len() <= usize::MAX,
                    visited@.len() >= 1,
                    count >= 1,
                    current.wf(),
                    current.depth < MAX_DEPTH,
                    current.root_board() == start,
                    one_move_solvable(start) ==> current.depth == 0,
                    one_move_solvable(start) ==> forall|j: int|
                        0 <= j < ci ==> !((#[trigger] children@[j]).board@ == solved_seq(
                            children@[j].board@.len() as int,
                        )),
                    forall|i: int| 0 <= i < queue@.len() ==> {
                        let q = #[trigger] queue@[i];
                        &&& q.wf()
                        &&& q.root_board() == start
                        &&& q.depth <= MAX_DEPTH
                    },
                    forall|i: int| 0 <= i < children@.len() ==> {
                        let c = #[trigger] children@[i];
                        &&& c.wf()
                        &&& c.root_board() == start
                        &&& c.depth == current.depth + 1
                    },
                    ci <= children@.len(),
                    (cap() - visited@.len()) * 2 + queue@.len() <= m0 - 1,
                decreases children@.len() - ci,
            {
                let child = (&children[ci]).clone();
                proof {
                    crate::node::lemma_like_node(child, children@[ci as int]);
                }
                // The goal test comes before any look at the dedup set,
                // so a solved child is returned whatever its hash.
                if child.is_solved() {
                    self.set_visited_count(visited.len());
                    self.set_reached_depth(child.depth() as i16);
                    self.set_result_len(child.depth());
                    self.set_processed_count(count);
                    return Some(child);
                }
                let ch = child.hash_code();
                if !visited.contains(&ch) {
                    visited.insert(ch);
                    let _ = visited.len();
                    queue.push_back(child);
                }
                ci = ci + 1;
            }
            proof {
                if one_move_solvable(start) {
                    // The root was just expanded and no child was the
                    // goal, yet one legal move solves the start board:
                    // that move's child is among the generated ones.
                    assert(current.board@ == start);
                    lemma_spec_dim(start, current.dim as int);
                    let sdim = spec_dim(start);
                    let d = choose|d: Dir|
                        #[trigger] spec_can_move(start, sdim, d) && child_board(start, sdim, d)
                            == solved_seq(start.len() as int);
                    lemma_child_board_ok(start, sdim, d);
                    lemma_filter_has(dir_order@, current.movable(), d);
                    let ms = dir_order@.filter(current.movable());
                    let j = choose|j: int| 0 <= j < ms.len() && ms[j] == d;
                    assert(children@[j].board@ == child_board(start, sdim, d));
                    assert(false);
                }
            }
        }
        self.set_reached_depth(-1);
        None
    }

    fn get_reached_depth(&self) -> (r: i16) {
        self.common.reached_depth
    }

    fn get_visited_count(&self) -> (r: usize) {
        self.common.visited_count
    }

    fn get_processed_count(&self) -> (r: usize) {
        self.common.processed_count
    }

    fn get_result_len(&self) -> (r: u8) {
        self.common.result_len
    }

    fn set_processed_count(&mut self, count: usize) {
        self.common.processed_count = count;
    }

    fn set_visited_count(&mut self, count: usize) {
        self.common.visited_count = count;
    }

    fn set_reached_depth(&mut self, depth: i16) {
        self.common.reached_depth = depth;
    }

    fn set_result_len(&mut self, len: u8) {
        self.common.result_len = len;
    }
}

} // verus!
