//! The board model: a flat permutation of tile labels with the blank as 0.
//!
//! A board of side `dim` is a sequence of length `dim * dim` holding each
//! value `0 .. dim * dim` exactly once; `0` denotes the blank cell. The
//! spec functions here define validity, the canonical solved arrangement,
//! the position of the blank, move legality, and the board produced by
//! sliding the blank one cell.

use vstd::prelude::*;

use crate::direction::Dir;

verus! {

/// The largest supported board side. Sides, depths and labels all live
/// in `u8`, and the side's square must too: 15 squares to 225, while a
/// side of 16 would square to 256 and overflow the byte arithmetic
/// built on `dim * dim`.
pub const MAX_DIM: u8 = 15;

/// The canonical solved arrangement of a board of `n` cells:
/// `1, 2, ..., n-1, 0`.
pub open spec fn solved_seq(n: int) -> Seq<u8> {
    Seq::new(n as nat, |i: int| if i == n - 1 { 0u8 } else { (i + 1) as u8 })
}

/// Whether `dim` is the side of a board laid out as `b`.
pub open spec fn dim_ok(b: Seq<u8>, dim: int) -> bool {
    &&& 1 <= dim <= MAX_DIM
    &&& dim * dim == b.len()
}

/// A valid board: non-empty, square, and holding each value `0 .. len`
/// exactly once (so in particular exactly one blank).
pub open spec fn board_ok(b: Seq<u8>) -> bool {
    &&& exists|d: int| #[trigger] dim_ok(b, d)
    &&& forall|i: int| 0 <= i < b.len() ==> (#[trigger] b[i]) < b.len()
    &&& forall|i: int, j: int| 0 <= i < b.len() && 0 <= j < b.len() && i != j ==> b[i] != b[j]
    &&& forall|v: u8| v < b.len() ==> #[trigger] b.contains(v)
}

/// A valid board has between 1 and 225 cells.
pub proof fn lemma_board_len(b: Seq<u8>)
    requires
        board_ok(b),
    ensures
        1 <= b.len() <= 225,
{
    let d = choose|d: int| dim_ok(b, d);
    assert(1 <= d * d <= 225) by (nonlinear_arith)
        requires
            1 <= d <= 15,
    ;
}

/// The index of the blank cell.
pub open spec fn zero_pos(b: Seq<u8>) -> int {
    choose|i: int| 0 <= i < b.len() && b[i] == 0
}

/// On a valid board the blank exists and is unique, so `zero_pos` is the
/// one index holding 0.
pub proof fn lemma_zero_pos(b: Seq<u8>)
    requires
        board_ok(b),
    ensures
        0 <= zero_pos(b) < b.len(),
        b[zero_pos(b)] == 0,
        forall|i: int| 0 <= i < b.len() && b[i] == 0 ==> i == zero_pos(b),
{
    let d = choose|d: int| dim_ok(b, d);
    assert(d * d >= 1) by (nonlinear_arith)
        requires
            d >= 1,
    ;
    assert(b.len() >= 1);
    assert(0u8 < b.len());
    assert(b.contains(0u8));
}

/// A side `dim` is determined by the board's length.
pub proof fn lemma_dim_unique(b: Seq<u8>, d1: int, d2: int)
    requires
        dim_ok(b, d1),
        dim_ok(b, d2),
    ensures
        d1 == d2,
{
    assert(d1 == d2) by (nonlinear_arith)
        requires
            1 <= d1,
            1 <= d2,
            d1 * d1 == d2 * d2,
    ;
}

/// Whether sliding the blank of `b` in direction `d` stays on the board.
pub open spec fn spec_can_move(b: Seq<u8>, dim: int, d: Dir) -> bool {
    let z = zero_pos(b);
    match d {
        Dir::Left => z % dim > 0,
        Dir::Right => z % dim < dim - 1,
        Dir::Up => z / dim > 0,
        Dir::Down => z / dim < dim - 1,
    }
}

/// The index the blank reaches by sliding from `z` in direction `d`.
pub open spec fn move_target(z: int, dim: int, d: Dir) -> int {
    match d {
        Dir::Left => z - 1,
        Dir::Right => z + 1,
        Dir::Up => z - dim,
        Dir::Down => z + dim,
    }
}

/// The board produced by sliding the blank in direction `d`: the blank
/// and the tile at the target cell swap places.
pub open spec fn child_board(b: Seq<u8>, dim: int, d: Dir) -> Seq<u8> {
    let z = zero_pos(b);
    let t = move_target(z, dim, d);
    b.update(z, b[t]).update(t, 0u8)
}

/// A legal move's target cell lies on the board and differs from the
/// blank's cell.
pub proof fn lemma_move_target(b: Seq<u8>, dim: int, d: Dir)
    requires
        board_ok(b),
        dim_ok(b, dim),
        spec_can_move(b, dim, d),
    ensures
        0 <= move_target(zero_pos(b), dim, d) < b.len(),
        move_target(zero_pos(b), dim, d) != zero_pos(b),
{
    lemma_zero_pos(b);
    let z = zero_pos(b);
    let n = b.len() as int;
    match d {
        Dir::Left => {
            assert(z >= 1) by (nonlinear_arith)
                requires
                    dim >= 1,
                    z >= 0,
                    z % dim > 0,
            ;
        },
        Dir::Right => {
            assert(z + 1 < dim * dim) by (nonlinear_arith)
                requires
                    dim >= 1,
                    0 <= z < dim * dim,
                    z % dim < dim - 1,
            ;
        },
        Dir::Up => {
            assert(z - dim >= 0) by (nonlinear_arith)
                requires
                    dim >= 1,
                    z >= 0,
                    z / dim > 0,
            ;
        },
        Dir::Down => {
            assert(z + dim < dim * dim) by (nonlinear_arith)
                requires
                    dim >= 1,
                    0 <= z < dim * dim,
                    z / dim < dim - 1,
            ;
        },
    }
}

/// Sliding the blank of a valid board along a legal move yields a valid
/// board whose blank sits at the move's target cell.
pub proof fn lemma_child_board_ok(b: Seq<u8>, dim: int, d: Dir)
    requires
        board_ok(b),
        dim_ok(b, dim),
        spec_can_move(b, dim, d),
    ensures
        board_ok(child_board(b, dim, d)),
        child_board(b, dim, d).len() == b.len(),
        dim_ok(child_board(b, dim, d), dim),
        zero_pos(child_board(b, dim, d)) == move_target(zero_pos(b), dim, d),
{
    lemma_zero_pos(b);
    lemma_move_target(b, dim, d);
    let z = zero_pos(b);
    let t = move_target(z, dim, d);
    let c = child_board(b, dim, d);
    let n = b.len() as int;
    assert(c.len() == n);
    assert(dim_ok(c, dim));
    assert(c[t] == 0);
    assert(c[z] == b[t]);
    assert(forall|i: int| 0 <= i < n && i != z && i != t ==> c[i] == b[i]);

    // Each value below the length still occurs somewhere.
    assert forall|v: u8| v < c.len() implies #[trigger] c.contains(v) by {
        assert(b.contains(v));
        let k = choose|k: int| 0 <= k < n && b[k] == v;
        if k == z {
            assert(c[t] == v);
        } else if k == t {
            assert(c[z] == v);
        } else {
            assert(c[k] == v);
        }
    }

    // Distinctness is preserved: the swap only permutes positions.
    assert forall|i: int, j: int|
        0 <= i < c.len() && 0 <= j < c.len() && i != j implies c[i] != c[j] by {
        if i == z || i == t || j == z || j == t {
            assert(b[z] == 0);
        }
    }

    // The blank of the child board is exactly the target cell.
    assert(c.contains(0u8)) by {
        assert(c[t] == 0);
    }
    let w = zero_pos(c);
    assert(0 <= w < n && c[w] == 0);
    assert(w == t);
}

/// Whether one legal move takes `b` straight to the solved board.
pub open spec fn one_move_solvable(b: Seq<u8>) -> bool {
    exists|d: Dir|
        #[trigger] spec_can_move(b, spec_dim(b), d) && child_board(b, spec_dim(b), d)
            == solved_seq(b.len() as int)
}

/// The board reached by replaying `moves` from `b`, oldest move first.
pub open spec fn replay(b: Seq<u8>, dim: int, moves: Seq<Dir>) -> Seq<u8>
    decreases moves.len(),
{
    if moves.len() == 0 {
        b
    } else {
        replay(child_board(b, dim, moves[0]), dim, moves.drop_first())
    }
}

/// Whether `moves` can be replayed from `b`: each step starts from a
/// valid board and makes a legal move.
pub open spec fn replay_ok(b: Seq<u8>, dim: int, moves: Seq<Dir>) -> bool
    decreases moves.len(),
{
    if moves.len() == 0 {
        true
    } else {
        &&& board_ok(b)
        &&& dim_ok(b, dim)
        &&& spec_can_move(b, dim, moves[0])
        &&& replay_ok(child_board(b, dim, moves[0]), dim, moves.drop_first())
    }
}

/// Replaying one more move extends the replayed board by one swap.
pub proof fn lemma_replay_push(b: Seq<u8>, dim: int, moves: Seq<Dir>, d: Dir)
    ensures
        replay(b, dim, moves.push(d)) == child_board(replay(b, dim, moves), dim, d),
        replay_ok(b, dim, moves.push(d)) == (replay_ok(b, dim, moves) && board_ok(
            replay(b, dim, moves),
        ) && dim_ok(replay(b, dim, moves), dim) && spec_can_move(replay(b, dim, moves), dim, d)),
    decreases moves.len(),
{
    let e = moves.push(d);
    if moves.len() == 0 {
        reveal_with_fuel(replay, 3);
        reveal_with_fuel(replay_ok, 3);
        assert(e[0] == d);
        assert(e.drop_first() =~= Seq::<Dir>::empty());
        assert(replay(b, dim, e) == child_board(replay(b, dim, moves), dim, d));
        assert(replay_ok(b, dim, e) == (replay_ok(b, dim, moves) && board_ok(replay(b, dim, moves))
            && dim_ok(replay(b, dim, moves), dim) && spec_can_move(replay(b, dim, moves), dim, d)));
    } else {
        let c0 = child_board(b, dim, moves[0]);
        let rest = moves.drop_first();
        assert(e[0] == moves[0]);
        assert(e.drop_first() =~= rest.push(d));
        lemma_replay_push(c0, dim, rest, d);
        assert(replay(b, dim, e) == replay(c0, dim, rest.push(d)));
        assert(replay(b, dim, moves) == replay(c0, dim, rest));
        assert(replay(b, dim, e) == child_board(replay(b, dim, moves), dim, d));
        assert(replay_ok(b, dim, e) == (board_ok(b) && dim_ok(b, dim) && spec_can_move(b, dim, moves[0])
            && replay_ok(c0, dim, rest.push(d))));
        assert(replay_ok(b, dim, moves) == (board_ok(b) && dim_ok(b, dim) && spec_can_move(b, dim, moves[0])
            && replay_ok(c0, dim, rest)));
        assert(replay_ok(b, dim, e) == (replay_ok(b, dim, moves) && board_ok(replay(b, dim, moves))
            && dim_ok(replay(b, dim, moves), dim) && spec_can_move(replay(b, dim, moves), dim, d)));
    }
}

/// Replaying legal moves never changes a board's length.
pub proof fn lemma_replay_len(b: Seq<u8>, dim: int, moves: Seq<Dir>)
    requires
        replay_ok(b, dim, moves),
    ensures
        replay(b, dim, moves).len() == b.len(),
    decreases moves.len(),
{
    if moves.len() > 0 {
        lemma_child_board_ok(b, dim, moves[0]);
        lemma_replay_len(child_board(b, dim, moves[0]), dim, moves.drop_first());
    }
}

/// The side of a board laid out as `b`.
pub open spec fn spec_dim(b: Seq<u8>) -> int {
    choose|d: int| dim_ok(b, d)
}

/// On a valid board, `spec_dim` is the one side that fits, so any side
/// that fits equals it.
pub proof fn lemma_spec_dim(b: Seq<u8>, d: int)
    requires
        dim_ok(b, d),
    ensures
        spec_dim(b) == d,
{
    let d0 = choose|d0: int| dim_ok(b, d0);
    lemma_dim_unique(b, d0, d);
}

/// Finds the side of a square board of `n` cells.
pub(crate) fn square_side(n: usize) -> (r: u8)
    requires
        exists|d: int| 1 <= d <= 15 && #[trigger] (d * d) == n,
    ensures
        1 <= r <= 15 && (r as int) * (r as int) == n,
{
    let mut k: u8 = 1;
    while k < 15
        invariant
            1 <= k <= 15,
            forall|dd: int| 1 <= dd < k ==> #[trigger] (dd * dd) != n,
            exists|d: int| 1 <= d <= 15 && #[trigger] (d * d) == n,
        decreases 15 - k,
    {
        proof {
            assert((k as int) * (k as int) <= 225) by (nonlinear_arith)
                requires
                    k <= 15u8,
            ;
        }
        if (k as usize) * (k as usize) == n {
            return k;
        }
        k = k + 1;
    }
    proof {
        let d = choose|d: int| 1 <= d <= 15 && #[trigger] (d * d) == n;
        assert(d == 15);
    }
    15
}

/// How many entries of a sequence of markers are set.
pub open spec fn count_true(s: Seq<bool>) -> int
    decreases s.len(),
{
    if s.len() == 0 {
        0
    } else {
        count_true(s.drop_last()) + if s.last() {
            1int
        } else {
            0int
        }
    }
}

pub proof fn lemma_count_true_le(s: Seq<bool>)
    ensures
        0 <= count_true(s) <= s.len(),
    decreases s.len(),
{
    if s.len() > 0 {
        lemma_count_true_le(s.drop_last());
    }
}

/// Setting a clear marker raises the count by one.
pub proof fn lemma_count_true_set(s: Seq<bool>, i: int)
    requires
        0 <= i < s.len(),
        !s[i],
    ensures
        count_true(s.update(i, true)) == count_true(s) + 1,
    decreases s.len(),
{
    let t = s.update(i, true);
    if i == s.len() - 1 {
        assert(t.drop_last() =~= s.drop_last());
    } else {
        assert(t.drop_last() =~= s.drop_last().update(i, true));
        lemma_count_true_set(s.drop_last(), i);
        assert(t.last() == s.last());
    }
}

/// A marker sequence whose count equals its length is set everywhere.
pub proof fn lemma_count_true_full(s: Seq<bool>)
    requires
        count_true(s) == s.len(),
    ensures
        forall|i: int| 0 <= i < s.len() ==> s[i],
    decreases s.len(),
{
    if s.len() > 0 {
        lemma_count_true_le(s.drop_last());
        assert(s.last());
        lemma_count_true_full(s.drop_last());
        assert forall|i: int| 0 <= i < s.len() implies s[i] by {
            if i < s.len() - 1 {
                assert(s.drop_last()[i]);
            }
        }
    }
}

/// The canonical solved board is valid.
pub proof fn lemma_solved_seq_ok(dim: int)
    requires
        1 <= dim <= MAX_DIM,
    ensures
        board_ok(solved_seq(dim * dim)),
        dim_ok(solved_seq(dim * dim), dim),
{
    assert(1 <= dim * dim <= 225) by (nonlinear_arith)
        requires
            1 <= dim <= 15,
    ;
    let n = dim * dim;
    let s = solved_seq(n);
    assert(dim_ok(s, dim));
    assert forall|v: u8| v < s.len() implies #[trigger] s.contains(v) by {
        if v == 0 {
            assert(s[n - 1] == 0);
        } else {
            assert(s[v - 1] == v);
        }
    }
}

} // verus!
