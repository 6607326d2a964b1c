//! Move ordering and heuristics: either a fixed permutation of the four
//! directions, or a cost function that scores a state for best-first
//! search.

use vstd::prelude::*;

use crate::board::{
    board_ok, child_board, dim_ok, lemma_board_len, lemma_child_board_ok, lemma_move_target,
    lemma_spec_dim, lemma_zero_pos, move_target, replay, replay_ok, solved_seq, spec_can_move,
    spec_dim, square_side, zero_pos,
};
use crate::direction::Dir;

verus! {

/// The ordering policy handed to a strategy: the Hamming or Manhattan
/// cost function for best-first search, or a fixed direction permutation
/// for the exhaustive searches.
#[derive(Clone, Copy, Debug)]
pub enum Order {
    Hamm,
    Manh,
    Perm([Dir; 4]),
}

/// Whether the tile at index `i` sits away from its goal cell (the blank
/// does not count).
pub open spec fn misplaced_at(b: Seq<u8>, i: int) -> bool {
    b[i] != 0 && b[i] != i + 1
}

/// How many of the first `k` tiles are misplaced.
pub open spec fn hamming_upto(b: Seq<u8>, k: int) -> int
    decreases k,
{
    if k <= 0 {
        0
    } else {
        hamming_upto(b, k - 1) + if misplaced_at(b, k - 1) {
            1int
        } else {
            0int
        }
    }
}

/// The Hamming estimate: the number of non-blank tiles not on their goal
/// cell.
pub open spec fn hamming(b: Seq<u8>) -> int {
    hamming_upto(b, b.len() as int)
}

/// The grid distance of the tile at index `i` from its goal cell: the
/// sum of its row and column offsets. The blank counts as zero.
pub open spec fn cell_dist(b: Seq<u8>, dim: int, i: int) -> int {
    if b[i] == 0 {
        0
    } else {
        let t = b[i] - 1;
        abs_int(t / dim - i / dim) + abs_int(t % dim - i % dim)
    }
}

pub open spec fn abs_int(a: int) -> int {
    if a >= 0 {
        a
    } else {
        -a
    }
}

/// The summed grid distance of the first `k` tiles.
pub open spec fn manhattan_upto(b: Seq<u8>, dim: int, k: int) -> int
    decreases k,
{
    if k <= 0 {
        0
    } else {
        manhattan_upto(b, dim, k - 1) + cell_dist(b, dim, k - 1)
    }
}

/// The Manhattan estimate: the summed grid distance of every non-blank
/// tile from its goal cell.
pub open spec fn manhattan(b: Seq<u8>) -> int {
    manhattan_upto(b, spec_dim(b), b.len() as int)
}

proof fn lemma_hamming_upto_bound(b: Seq<u8>, k: int)
    requires
        k >= 0,
    ensures
        0 <= hamming_upto(b, k) <= k,
    decreases k,
{
    if k > 0 {
        lemma_hamming_upto_bound(b, k - 1);
    }
}

proof fn lemma_manhattan_upto_bound(b: Seq<u8>, dim: int, k: int)
    requires
        0 <= k <= b.len(),
        1 <= dim <= 15,
        forall|i: int| 0 <= i < b.len() ==> (#[trigger] b[i]) < b.len(),
        b.len() == dim * dim,
    ensures
        0 <= manhattan_upto(b, dim, k) <= 28 * k,
    decreases k,
{
    if k > 0 {
        lemma_manhattan_upto_bound(b, dim, k - 1);
        if 0 <= k - 1 < b.len() && b[k - 1] != 0 {
            let t = b[k - 1] - 1;
            assert(0 <= t < dim * dim);
            assert(0 <= t / dim <= dim - 1 && 0 <= t % dim <= dim - 1) by (nonlinear_arith)
                requires
                    1 <= dim,
                    0 <= t < dim * dim,
            ;
            assert(0 <= (k - 1) / dim && 0 <= (k - 1) % dim <= dim - 1) by (nonlinear_arith)
                requires
                    1 <= dim,
                    0 <= k - 1,
            ;
            assert((k - 1) / dim <= dim - 1) by (nonlinear_arith)
                requires
                    1 <= dim,
                    0 <= k - 1 < dim * dim,
            ;
            assert(cell_dist(b, dim, k - 1) <= 28);
        } else {
            assert(cell_dist(b, dim, k - 1) == 0);
        }
    }
}

/// The contribution of one cell to the Hamming estimate.
pub open spec fn mis_ind(b: Seq<u8>, i: int) -> int {
    if misplaced_at(b, i) {
        1
    } else {
        0
    }
}

proof fn lemma_hamming_upto_diff2(b: Seq<u8>, c: Seq<u8>, k: int, z: int, t: int)
    requires
        z != t,
        b.len() == c.len(),
        forall|i: int| 0 <= i < b.len() && i != z && i != t ==> b[i] == c[i],
        k <= b.len(),
    ensures
        hamming_upto(b, k) == hamming_upto(c, k) + (if 0 <= z < k {
            mis_ind(b, z) - mis_ind(c, z)
        } else {
            0int
        }) + (if 0 <= t < k {
            mis_ind(b, t) - mis_ind(c, t)
        } else {
            0int
        }),
    decreases k,
{
    if k > 0 {
        lemma_hamming_upto_diff2(b, c, k - 1, z, t);
    }
}

proof fn lemma_manhattan_upto_diff2(b: Seq<u8>, c: Seq<u8>, dim: int, k: int, z: int, t: int)
    requires
        z != t,
        b.len() == c.len(),
        forall|i: int| 0 <= i < b.len() && i != z && i != t ==> b[i] == c[i],
        k <= b.len(),
    ensures
        manhattan_upto(b, dim, k) == manhattan_upto(c, dim, k) + (if 0 <= z < k {
            cell_dist(b, dim, z) - cell_dist(c, dim, z)
        } else {
            0int
        }) + (if 0 <= t < k {
            cell_dist(b, dim, t) - cell_dist(c, dim, t)
        } else {
            0int
        }),
    decreases k,
{
    if k > 0 {
        lemma_manhattan_upto_diff2(b, c, dim, k - 1, z, t);
    }
}

/// One move lowers the Hamming estimate by at most one: only the moved
/// tile's misplacement can change.
proof fn lemma_hamming_one_move(b: Seq<u8>, dim: int, d: Dir)
    requires
        board_ok(b),
        dim_ok(b, dim),
        spec_can_move(b, dim, d),
    ensures
        hamming(b) <= hamming(child_board(b, dim, d)) + 1,
{
    lemma_zero_pos(b);
    lemma_move_target(b, dim, d);
    lemma_child_board_ok(b, dim, d);
    let z = zero_pos(b);
    let t = move_target(z, dim, d);
    let c = child_board(b, dim, d);
    lemma_hamming_upto_diff2(b, c, b.len() as int, z, t);
    assert(mis_ind(b, z) == 0);
    assert(mis_ind(c, t) == 0);
}

/// One move lowers the Manhattan estimate by at most one: only the
/// moved tile's grid distance changes, and only to an adjacent cell.
proof fn lemma_manhattan_one_move(b: Seq<u8>, dim: int, d: Dir)
    requires
        board_ok(b),
        dim_ok(b, dim),
        spec_can_move(b, dim, d),
    ensures
        manhattan_upto(b, dim, b.len() as int) <= manhattan_upto(
            child_board(b, dim, d),
            dim,
            b.len() as int,
        ) + 1,
{
    lemma_zero_pos(b);
    lemma_move_target(b, dim, d);
    lemma_child_board_ok(b, dim, d);
    let z = zero_pos(b);
    let t = move_target(z, dim, d);
    let c = child_board(b, dim, d);
    lemma_manhattan_upto_diff2(b, c, dim, b.len() as int, z, t);
    assert(cell_dist(b, dim, z) == 0);
    assert(cell_dist(c, dim, t) == 0);
    let v = b[t];
    assert(c[z] == v);
    assert(v != 0);
    let g = v - 1;
    // The target cell is one step from the blank's cell, so the moved
    // tile's row and column offsets together change by exactly one.
    match d {
        Dir::Left => {
            assert(t / dim == z / dim && t % dim == z % dim - 1) by (nonlinear_arith)
                requires
                    dim >= 1,
                    z >= 0,
                    z % dim > 0,
                    t == z - 1,
            ;
        },
        Dir::Right => {
            assert(t / dim == z / dim && t % dim == z % dim + 1) by (nonlinear_arith)
                requires
                    dim >= 1,
                    z >= 0,
                    z % dim < dim - 1,
                    t == z + 1,
            ;
        },
        Dir::Up => {
            assert(t / dim == z / dim - 1 && t % dim == z % dim) by (nonlinear_arith)
                requires
                    dim >= 1,
                    z / dim > 0,
                    z >= 0,
                    t == z - dim,
            ;
        },
        Dir::Down => {
            assert(t / dim == z / dim + 1 && t % dim == z % dim) by (nonlinear_arith)
                requires
                    dim >= 1,
                    z >= 0,
                    t == z + dim,
            ;
        },
    }
    assert(abs_int(t / dim - z / dim) + abs_int(t % dim - z % dim) == 1);
    assert(cell_dist(b, dim, t) <= cell_dist(c, dim, z) + 1);
}

proof fn lemma_hamming_solved(n: int, k: int)
    requires
        0 <= k <= n <= 225,
    ensures
        hamming_upto(solved_seq(n), k) == 0,
    decreases k,
{
    if k > 0 {
        lemma_hamming_solved(n, k - 1);
        assert(!misplaced_at(solved_seq(n), k - 1));
    }
}

proof fn lemma_manhattan_solved(n: int, dim: int, k: int)
    requires
        0 <= k <= n <= 225,
        dim >= 1,
    ensures
        manhattan_upto(solved_seq(n), dim, k) == 0,
    decreases k,
{
    if k > 0 {
        lemma_manhattan_solved(n, dim, k - 1);
        let s = solved_seq(n);
        if s[k - 1] != 0 {
            assert(s[k - 1] == k);
            assert(cell_dist(s, dim, k - 1) == 0);
        }
    }
}

/// Both cost functions are admissible: neither the Hamming nor the
/// Manhattan estimate of a board ever exceeds the length of any move
/// sequence that solves it. This is what entitles best-first search to
/// stop at the first goal it pops.
pub proof fn lemma_heuristics_admissible(b: Seq<u8>, dim: int, moves: Seq<Dir>)
    requires
        board_ok(b),
        dim_ok(b, dim),
        replay_ok(b, dim, moves),
        replay(b, dim, moves) == solved_seq(b.len() as int),
    ensures
        hamming(b) <= moves.len(),
        manhattan(b) <= moves.len(),
    decreases moves.len(),
{
    lemma_spec_dim(b, dim);
    lemma_board_len(b);
    if moves.len() == 0 {
        lemma_hamming_solved(b.len() as int, b.len() as int);
        lemma_manhattan_solved(b.len() as int, dim, b.len() as int);
    } else {
        let c = child_board(b, dim, moves[0]);
        lemma_child_board_ok(b, dim, moves[0]);
        lemma_heuristics_admissible(c, dim, moves.drop_first());
        lemma_hamming_one_move(b, dim, moves[0]);
        lemma_manhattan_one_move(b, dim, moves[0]);
        lemma_spec_dim(c, dim);
    }
}

impl Order {
    /// The estimate this cost function assigns to a board, before the
    /// depth is added.
    pub open spec fn estimate(self, b: Seq<u8>) -> int {
        match self {
            Order::Hamm => hamming(b),
            Order::Manh => manhattan(b),
            Order::Perm(_) => 0,
        }
    }

    /// Scores a state for best-first search: the depth already walked
    /// plus the selected admissible estimate of the distance still to
    /// go. Only the Hamming and Manhattan variants carry a cost
    /// function; a fixed permutation must never reach this point.
    pub fn get_heuristic(&self, board: &Vec<u8>, depth: u8) -> (r: usize)
        requires
            !(self is Perm),
            board_ok(board@),
        ensures
            r == depth + self.estimate(board@),
    {
        proof {
            lemma_board_len(board@);
        }
        let n = board.len();
        match self {
            Order::Hamm => {
                let mut count: usize = 0;
                let mut i: usize = 0;
                while i < n
                    invariant
                        n == board@.len(),
                        n <= 225,
                        i <= n,
                        count <= i,
                        count == hamming_upto(board@, i as int),
                    decreases n - i,
                {
                    let v = board[i];
                    if v != 0 && (v as usize) != i + 1 {
                        count = count + 1;
                    }
                    i = i + 1;
                }
                depth as usize + count
            },
            Order::Manh => {
                proof {
                    let d = choose|d: int| dim_ok(board@, d);
                    assert(d * d == board@.len());
                    lemma_spec_dim(board@, d);
                }
                let dim = square_side(n) as usize;
                proof {
                    assert(dim_ok(board@, dim as int));
                    lemma_spec_dim(board@, dim as int);
                }
                let mut cost: usize = 0;
                let mut i: usize = 0;
                while i < n
                    invariant
                        n == board@.len(),
                        n <= 225,
                        1 <= dim <= 15,
                        n == dim * dim,
                        dim == spec_dim(board@),
                        forall|q: int| 0 <= q < n ==> (#[trigger] board@[q]) < n,
                        i <= n,
                        cost <= 28 * i,
                        cost == manhattan_upto(board@, dim as int, i as int),
                    decreases n - i,
                {
                    let v = board[i];
                    if v != 0 {
                        let t = (v - 1) as usize;
                        let target_row = t / dim;
                        let target_col = t % dim;
                        let current_row = i / dim;
                        let current_col = i % dim;
                        let row_diff = if target_row >= current_row {
                            target_row - current_row
                        } else {
                            current_row - target_row
                        };
                        let col_diff = if target_col >= current_col {
                            target_col - current_col
                        } else {
                            current_col - target_col
                        };
                        proof {
                            lemma_manhattan_upto_bound(board@, dim as int, i + 1);
                            assert(cell_dist(board@, dim as int, i as int) == row_diff + col_diff);
                        }
                        cost = cost + row_diff + col_diff;
                    }
                    i = i + 1;
                }
                depth as usize + cost
            },
            Order::Perm(_) => unreached(),
        }
    }
}

} // verus!
