//! The search node: a puzzle board together with its search metadata.
//!
//! A [`Node`] owns a valid board, its side dimension, its depth (number of
//! moves from the start), the move that produced it, a shared reference to
//! its parent, and an identity hash precomputed from the board contents.
//! Nodes are never mutated after construction; the parent chain is shared
//! between siblings through reference counting.

use std::collections::hash_map::DefaultHasher;
use std::hash::Hasher;
use std::rc::Rc;

use vstd::prelude::*;
use vstd::std_specs::hash::DefaultHasherAdditionalSpecFns;

use crate::board::{
    board_ok, child_board, count_true, dim_ok, lemma_board_len, lemma_count_true_full,
    lemma_count_true_set, lemma_replay_len, lemma_replay_push, lemma_zero_pos, replay,
    replay_ok, solved_seq, spec_can_move, square_side, zero_pos,
};
use crate::direction::Dir;

verus! {

/// The identity hash of a board: what a fresh `DefaultHasher` yields
/// after the board's bytes are written to it once. Equal boards hash
/// identically, since the hash is a function of the contents alone.
pub open spec fn board_hash(b: Seq<u8>) -> u64 {
    DefaultHasher::spec_finish(seq![b])
}

/// A flat board given row by row.
pub open spec fn flatten_table(t: Seq<Seq<u8>>) -> Seq<u8>
    decreases t.len(),
{
    if t.len() == 0 {
        Seq::empty()
    } else {
        flatten_table(t.drop_last()) + t.last()
    }
}

/// A puzzle state: a board plus search metadata.
#[derive(Debug)]
pub struct Node {
    pub board: Vec<u8>,
    pub dim: u8,
    pub parent: Option<Rc<Node>>,
    pub depth: u8,
    pub next_move: Option<Dir>,
    pub hash_code: u64,
}

/// Whether two nodes agree on every field, with boards compared by
/// contents. Cloning yields a node like its source.
pub open spec fn like(a: Node, b: Node) -> bool {
    &&& a.board@ == b.board@
    &&& a.dim == b.dim
    &&& a.parent == b.parent
    &&& a.depth == b.depth
    &&& a.next_move == b.next_move
    &&& a.hash_code == b.hash_code
}

impl Node {
    /// Well-formedness of a node and of its whole parent chain: the board
    /// is a valid permutation, the hash matches the board, and each
    /// non-root node is its parent's board after one legal move.
    pub open spec fn wf(self) -> bool
        decreases self,
    {
        &&& board_ok(self.board@)
        &&& dim_ok(self.board@, self.dim as int)
        &&& self.hash_code == board_hash(self.board@)
        &&& match self.parent {
            None => self.depth == 0 && self.next_move is None,
            Some(p) => match self.next_move {
                None => false,
                Some(d) => {
                    &&& (*p).wf()
                    &&& self.dim == (*p).dim
                    &&& (*p).depth < 255
                    &&& self.depth == (*p).depth + 1
                    &&& spec_can_move((*p).board@, self.dim as int, d)
                    &&& self.board@ == child_board((*p).board@, self.dim as int, d)
                },
            },
        }
    }

    /// The board this node's search started from: the root of the parent
    /// chain.
    pub open spec fn root_board(self) -> Seq<u8>
        decreases self,
    {
        match self.parent {
            None => self.board@,
            Some(p) => (*p).root_board(),
        }
    }

    /// The moves leading from the root board to this node, oldest first.
    pub open spec fn path_moves(self) -> Seq<Dir>
        decreases self,
    {
        match self.parent {
            None => Seq::empty(),
            Some(p) => match self.next_move {
                None => Seq::empty(),
                Some(d) => (*p).path_moves().push(d),
            },
        }
    }
}

/// Node equality is board equality: two states are the same position
/// regardless of how the search reached them.
impl PartialEq for Node {
    fn eq(&self, other: &Self) -> (r: bool) {
        let mut i: usize = 0;
        if self.board.len() != other.board.len() {
            return false;
        }
        while i < self.board.len()
            invariant
                i <= self.board@.len(),
                self.board@.len() == other.board@.len(),
                forall|j: int| 0 <= j < i ==> self.board@[j] == other.board@[j],
            decreases self.board@.len() - i,
        {
            if self.board[i] != other.board[i] {
                return false;
            }
            i = i + 1;
        }
        proof {
            assert(self.board@ =~= other.board@);
        }
        true
    }
}

impl Eq for Node {

}

impl vstd::std_specs::cmp::PartialEqSpecImpl for Node {
    open spec fn obeys_eq_spec() -> bool {
        true
    }

    open spec fn eq_spec(&self, other: &Self) -> bool {
        self.board@ == other.board@
    }
}

/// Relies on `Rc::clone`: the returned handle shares the same allocation
/// as the argument, so it denotes the very same node.
#[verifier::external_body]
fn rc_dup(p: &Rc<Node>) -> (r: Rc<Node>)
    ensures
        r == *p,
{
    Rc::clone(p)
}

pub(crate) fn copy_board(v: &Vec<u8>) -> (r: Vec<u8>)
    ensures
        r@ == v@,
{
    let mut out: Vec<u8> = Vec::new();
    let mut i: usize = 0;
    while i < v.len()
        invariant
            i <= v@.len(),
            out@ == v@.take(i as int),
        decreases v@.len() - i,
    {
        out.push(v[i]);
        proof {
            assert(v@.take(i + 1) =~= v@.take(i as int).push(v@[i as int]));
        }
        i = i + 1;
    }
    proof {
        assert(v@.take(v@.len() as int) =~= v@);
    }
    out
}

impl Clone for Node {
    /// Duplicates the node; the board is copied, the parent chain is
    /// shared.
    fn clone(&self) -> (r: Self)
        ensures
            like(r, *self),
    {
        Node {
            board: copy_board(&self.board),
            dim: self.dim,
            parent: match &self.parent {
                None => None,
                Some(p) => Some(rc_dup(p)),
            },
            depth: self.depth,
            next_move: self.next_move,
            hash_code: self.hash_code,
        }
    }
}

/// Nodes that agree on every field have the same well-formedness, root
/// board and move path.
pub broadcast proof fn lemma_like_node(a: Node, b: Node)
    requires
        #[trigger] like(a, b),
    ensures
        a.wf() == b.wf(),
        a.root_board() == b.root_board(),
        a.path_moves() == b.path_moves(),
{
}

/// Every well-formed node records the moves that lead from its root
/// board to its own: replaying the recorded path from the start board,
/// one legal move at a time, reproduces the node's board, and the path
/// is as long as the node is deep.
pub proof fn lemma_path_replay(n: &Node)
    requires
        n.wf(),
    ensures
        n.path_moves().len() == n.depth,
        replay_ok(n.root_board(), n.dim as int, n.path_moves()),
        replay(n.root_board(), n.dim as int, n.path_moves()) == n.board@,
        board_ok(n.root_board()),
        dim_ok(n.root_board(), n.dim as int),
    decreases *n,
{
    match &n.parent {
        None => {},
        Some(p) => {
            lemma_path_replay(&**p);
            match n.next_move {
                None => {
                    assert(false);
                },
                Some(d) => {
                    assert(n.path_moves().drop_last() =~= (**p).path_moves());
                    lemma_replay_push(n.root_board(), n.dim as int, n.path_moves().drop_last(), d);
                },
            }
        },
    }
}

/// The round trip: a solved goal state replays its recorded path from
/// the original start board to the canonical solved board.
pub proof fn lemma_round_trip(n: &Node)
    requires
        n.wf(),
        n.board@ == solved_seq(n.board@.len() as int),
    ensures
        replay_ok(n.root_board(), n.dim as int, n.path_moves()),
        replay(n.root_board(), n.dim as int, n.path_moves()) == solved_seq(
            n.root_board().len() as int,
        ),
        n.root_board().len() == n.board@.len(),
{
    lemma_path_replay(n);
    lemma_replay_len(n.root_board(), n.dim as int, n.path_moves());
}

/// Hashing is consistent with equality: equal boards hash identically,
/// because the identity hash is a function of the board contents alone.
pub proof fn lemma_hash_consistency(b1: Seq<u8>, b2: Seq<u8>)
    requires
        b1 == b2,
    ensures
        board_hash(b1) == board_hash(b2),
{
}

impl Node {
    /// Decides whether a flat board is a valid permutation of
    /// `0 .. len` on a square, non-empty board.
    pub fn is_board_valid(board: &[u8]) -> (r: bool)
        ensures
            r == board_ok(board@),
    {
        let n = board.len();
        if n == 0 || n > 225 {
            proof {
                if board_ok(board@) {
                    let d = choose|d: int| dim_ok(board@, d);
                    assert(1 <= d * d <= 225) by (nonlinear_arith)
                        requires
                            1 <= d <= 15,
                    ;
                }
            }
            return false;
        }
        let mut side: usize = 0;
        let mut k: usize = 1;
        while k <= 15
            invariant
                1 <= k <= 16,
                n == board@.len(),
                side == 0 ==> forall|dd: int| 1 <= dd < k ==> #[trigger] (dd * dd) != n,
                side != 0 ==> 1 <= side <= 15 && side * side == n,
            decreases 16 - k,
        {
            proof {
                assert(k * k <= 225) by (nonlinear_arith)
                    requires
                        k <= 15,
                ;
            }
            if side == 0 && k * k == n {
                side = k;
            }
            k = k + 1;
        }
        if side == 0 {
            proof {
                if board_ok(board@) {
                    let d = choose|d: int| dim_ok(board@, d);
                    assert(d * d == n);
                    assert(false);
                }
            }
            return false;
        }
        let mut seen: Vec<bool> = Vec::new();
        let mut i: usize = 0;
        while i < n
            invariant
                i <= n,
                seen@.len() == i,
                forall|j: int| 0 <= j < i ==> !seen@[j],
            decreases n - i,
        {
            seen.push(false);
            i = i + 1;
        }
        proof {
            lemma_count_all_false(seen@);
        }
        let mut idx: usize = 0;
        while idx < n
            invariant
                n == board@.len(),
                1 <= n <= 225,
                seen@.len() == n,
                idx <= n,
                count_true(seen@) == idx as int,
                forall|v: u8| v < n ==> ((#[trigger] seen@[v as int]) <==> exists|q: int|
                    0 <= q < idx && board@[q] == v),
                forall|q: int| 0 <= q < idx ==> (#[trigger] board@[q]) < n,
                forall|q1: int, q2: int|
                    0 <= q1 < idx && 0 <= q2 < idx && q1 != q2 ==> board@[q1] != board@[q2],
            decreases n - idx,
        {
            let v = board[idx];
            if v as usize >= n {
                return false;
            }
            if seen[v as usize] {
                proof {
                    let q = choose|q: int| 0 <= q < idx && board@[q] == v;
                    assert(board@[q] == board@[idx as int]);
                }
                return false;
            }
            let ghost s0 = seen@;
            seen[v as usize] = true;
            proof {
                assert(seen@ =~= s0.update(v as int, true));
                lemma_count_true_set(s0, v as int);
            }
            idx = idx + 1;
        }
        proof {
            lemma_count_true_full(seen@);
            assert forall|v: u8| v < board@.len() implies #[trigger] board@.contains(v) by {
                assert(seen@[v as int]);
                let q = choose|q: int| 0 <= q < n && board@[q] == v;
                assert(board@[q] == v);
            }
            assert(dim_ok(board@, side as int));
        }
        true
    }
}

proof fn lemma_flatten_push(t: Seq<Seq<u8>>, r: Seq<u8>)
    ensures
        flatten_table(t.push(r)) == flatten_table(t) + r,
{
    assert(t.push(r).drop_last() =~= t);
    assert(t.push(r).last() == r);
}

fn flatten_rows(vec: &Vec<Vec<u8>>) -> (r: Vec<u8>)
    ensures
        r@ == flatten_table(vec.deep_view()),
{
    let mut out: Vec<u8> = Vec::new();
    let mut i: usize = 0;
    while i < vec.len()
        invariant
            i <= vec@.len(),
            out@ == flatten_table(vec.deep_view().take(i as int)),
        decreases vec@.len() - i,
    {
        let row = &vec[i];
        let mut j: usize = 0;
        while j < row.len()
            invariant
                i < vec@.len(),
                j <= row@.len(),
                row@ == vec@[i as int]@,
                out@ == flatten_table(vec.deep_view().take(i as int)) + row@.take(j as int),
            decreases row@.len() - j,
        {
            out.push(row[j]);
            proof {
                assert(row@.take(j + 1) =~= row@.take(j as int).push(row@[j as int]));
            }
            j = j + 1;
        }
        proof {
            let dv = vec.deep_view();
            assert(dv.take(i + 1) =~= dv.take(i as int).push(dv[i as int]));
            lemma_flatten_push(dv.take(i as int), dv[i as int]);
            assert(row@.take(row@.len() as int) =~= row@);
            assert(dv[i as int] =~= row@);
        }
        i = i + 1;
    }
    proof {
        assert(vec.deep_view().take(vec@.len() as int) =~= vec.deep_view());
    }
    out
}

impl Node {
    /// Computes the identity hash: the board's bytes written once to a
    /// fresh `DefaultHasher`. The result depends on the contents alone.
    pub fn make_hash(board: &[u8]) -> (r: u64)
        ensures
            r == board_hash(board@),
    {
        let mut hasher = DefaultHasher::new();
        hasher.write(board);
        let r = hasher.finish();
        proof {
            assert(hasher@ =~= seq![board@]);
        }
        r
    }

    /// Builds the root state at depth 0, with no parent and no move, from
    /// a row-major table whose flattening is a valid board.
    pub fn new(vec: Vec<Vec<u8>>) -> (r: Node)
        requires
            board_ok(flatten_table(vec.deep_view())),
        ensures
            r.wf(),
            r.board@ == flatten_table(vec.deep_view()),
            r.depth == 0,
            r.parent is None,
            r.next_move is None,
            r.root_board() == r.board@,
            r.path_moves() == Seq::<Dir>::empty(),
    {
        let board = flatten_rows(&vec);
        proof {
            let d = choose|d: int| dim_ok(board@, d);
            assert(d * d == board@.len());
        }
        let side = square_side(board.len());
        let hash_code = Self::make_hash(board.as_slice());
        Node {
            hash_code,
            dim: side,
            board,
            parent: None,
            depth: 0,
            next_move: None,
        }
    }

    /// The solved board of the given side, as a row-major table.
    pub fn default_board(size: u8) -> (r: Vec<Vec<u8>>)
        requires
            1 <= size <= crate::board::MAX_DIM,
        ensures
            r.deep_view().len() == size,
            forall|i: int| 0 <= i < size ==> (#[trigger] r.deep_view()[i]).len() == size,
            flatten_table(r.deep_view()) == solved_seq((size * size) as int),
            board_ok(flatten_table(r.deep_view())),
    {
        let ghost n_spec: int = (size * size) as int;
        let ghost solved = solved_seq(n_spec);
        let dim = size as usize;
        proof {
            assert(dim * dim <= 225) by (nonlinear_arith)
                requires
                    dim <= 15,
            ;
        }
        let n = dim * dim;
        let mut rows: Vec<Vec<u8>> = Vec::new();
        let mut base: usize = 0;
        let mut i: usize = 0;
        while i < dim
            invariant
                1 <= dim <= 15,
                dim == size,
                n == dim * dim,
                n <= 225,
                n == n_spec,
                solved == solved_seq(n_spec),
                i <= dim,
                base == i * dim,
                base <= n,
                rows.deep_view().len() == i,
                forall|q: int| 0 <= q < i ==> (#[trigger] rows.deep_view()[q]).len() == dim,
                flatten_table(rows.deep_view()) == solved.take(base as int),
            decreases dim - i,
        {
            proof {
                assert(i * dim + dim <= dim * dim) by (nonlinear_arith)
                    requires
                        0 <= i < dim,
                ;
            }
            let mut row: Vec<u8> = Vec::new();
            let mut j: usize = 0;
            while j < dim
                invariant
                    1 <= dim <= 15,
                    n == n_spec,
                    n <= 225,
                    solved == solved_seq(n_spec),
                    j <= dim,
                    base + dim <= n,
                    row@.len() == j,
                    forall|q: int| 0 <= q < j ==> row@[q] == solved[base + q],
                decreases dim - j,
            {
                let v = base + j;
                let val: u8 = if v == n - 1 {
                    0
                } else {
                    (v + 1) as u8
                };
                row.push(val);
                j = j + 1;
            }
            let ghost rows_dv = rows.deep_view();
            rows.push(row);
            proof {
                assert(rows.deep_view() =~~= rows_dv.push(row@));
                lemma_flatten_push(rows_dv, row@);
                assert(solved.take((base + dim) as int) =~= solved.take(base as int) + row@);
                assert((i + 1) * dim == i * dim + dim) by (nonlinear_arith);
            }
            base = base + dim;
            i = i + 1;
        }
        proof {
            assert(base == n) by (nonlinear_arith)
                requires
                    base == i * dim,
                    i == dim,
                    n == dim * dim,
            ;
            assert(solved.take(n_spec) =~= solved);
            crate::board::lemma_solved_seq_ok(size as int);
        }
        rows
    }

    /// The index of the blank cell.
    pub fn find_zero(&self) -> (r: u8)
        requires
            self.wf(),
        ensures
            r as int == zero_pos(self.board@),
    {
        proof {
            lemma_zero_pos(self.board@);
            lemma_board_len(self.board@);
        }
        let n = self.board.len();
        let mut i: usize = 0;
        while i < n
            invariant
                self.wf(),
                n == self.board@.len(),
                i <= n,
                n <= 225,
                forall|j: int| 0 <= j < i ==> self.board@[j] != 0,
            decreases n - i,
        {
            if self.board[i] == 0 {
                proof {
                    lemma_zero_pos(self.board@);
                }
                return i as u8;
            }
            i = i + 1;
        }
        proof {
            lemma_zero_pos(self.board@);
            assert(false);
        }
        unreached()
    }

    /// True iff sliding the blank in `direction` stays on the board.
    pub fn can_move(&self, direction: Dir) -> (r: bool)
        requires
            self.wf(),
        ensures
            r == spec_can_move(self.board@, self.dim as int, direction),
    {
        let empty_field = self.find_zero();
        let dim = self.dim;
        match direction {
            Dir::Left => empty_field % dim > 0,
            Dir::Right => empty_field % dim < dim - 1,
            Dir::Down => empty_field / dim < dim - 1,
            Dir::Up => empty_field / dim > 0,
        }
    }

    /// True iff the board is the canonical solved arrangement
    /// `1, 2, ..., n-1, 0`.
    pub fn is_solved(&self) -> (r: bool)
        requires
            self.wf(),
        ensures
            r == (self.board@ == solved_seq(self.board@.len() as int)),
    {
        proof {
            lemma_board_len(self.board@);
        }
        let n = self.board.len();
        let ghost solved = solved_seq(n as int);
        let mut i: usize = 0;
        while i < n
            invariant
                self.wf(),
                n == self.board@.len(),
                n <= 225,
                solved == solved_seq(n as int),
                i <= n,
                forall|j: int| 0 <= j < i ==> self.board@[j] == solved[j],
            decreases n - i,
        {
            let expected: u8 = if i == n - 1 {
                0
            } else {
                (i + 1) as u8
            };
            if self.board[i] != expected {
                proof {
                    assert(self.board@[i as int] != solved[i as int]);
                }
                return false;
            }
            i = i + 1;
        }
        proof {
            assert(self.board@ =~= solved);
        }
        true
    }

    /// The flat board contents.
    pub fn get_board(&self) -> (r: &Vec<u8>)
        ensures
            r@ == self.board@,
    {
        &self.board
    }

    /// The board's side dimension.
    pub fn get_dim(&self) -> (r: u8)
        ensures
            r == self.dim,
    {
        self.dim
    }

    /// The identity hash precomputed at construction.
    pub fn hash_code(&self) -> (r: u64)
        ensures
            r == self.hash_code,
    {
        self.hash_code
    }

    /// The move that produced this node from its parent, if any.
    pub fn next_move(&self) -> (r: Option<Dir>)
        ensures
            r == self.next_move,
    {
        self.next_move
    }

    /// The shared reference to this node's parent, if any.
    pub fn parent(&self) -> (r: &Option<Rc<Node>>)
        ensures
            *r == self.parent,
    {
        &self.parent
    }

    /// The number of moves from the start state.
    pub fn depth(&self) -> (r: u8)
        ensures
            r == self.depth,
    {
        self.depth
    }
}

/// A kept element of a sequence survives filtering.
pub(crate) proof fn lemma_filter_has<A>(s: Seq<A>, pred: spec_fn(A) -> bool, x: A)
    requires
        s.contains(x),
        pred(x),
    ensures
        s.filter(pred).contains(x),
{
    let i = choose|i: int| 0 <= i < s.len() && s[i] == x;
    s.lemma_filter_contains(pred, i);
}

pub(crate) proof fn lemma_filter_push<A>(s: Seq<A>, pred: spec_fn(A) -> bool, x: A)
    ensures
        s.push(x).filter(pred) == if pred(x) {
            s.filter(pred).push(x)
        } else {
            s.filter(pred)
        },
{
    reveal(Seq::filter);
    assert(s.push(x).drop_last() =~= s);
    assert(s.push(x).last() == x);
}

impl Node {
    /// The predicate selecting the legal moves of this state.
    pub open spec fn movable(self) -> spec_fn(Dir) -> bool {
        |d: Dir| spec_can_move(self.board@, self.dim as int, d)
    }

    /// Builds the node reached by applying `dir` to `parent`, whose board
    /// must be the parent's board after that legal move. The new node is
    /// one deeper and shares the parent chain.
    pub fn with_parent(board: Vec<u8>, parent: &Node, dir: Dir) -> (r: Node)
        requires
            parent.wf(),
            parent.depth < 255,
            spec_can_move(parent.board@, parent.dim as int, dir),
            board@ == child_board(parent.board@, parent.dim as int, dir),
        ensures
            r.wf(),
            r.board@ == board@,
            r.dim == parent.dim,
            r.depth == parent.depth + 1,
            r.next_move == Some(dir),
            r.parent matches Some(p) && like(*p, *parent),
            r.root_board() == parent.root_board(),
            r.path_moves() == parent.path_moves().push(dir),
            r.hash_code == board_hash(board@),
    {
        proof {
            crate::board::lemma_child_board_ok(parent.board@, parent.dim as int, dir);
        }
        let hash_code = Self::make_hash(board.as_slice());
        let p = parent.clone();
        proof {
            lemma_like_node(p, *parent);
        }
        Node {
            hash_code,
            board,
            dim: parent.dim,
            depth: parent.depth + 1,
            parent: Some(Rc::new(p)),
            next_move: Some(dir),
        }
    }

    /// Generates the node reached by sliding the blank in `dir`, or no
    /// value if that move leaves the board.
    pub fn get_node_for_move(&self, dir: Dir) -> (r: Option<Node>)
        requires
            self.wf(),
            self.depth < 255,
        ensures
            r is Some <==> spec_can_move(self.board@, self.dim as int, dir),
            r matches Some(c) ==> {
                &&& c.wf()
                &&& c.board@ == child_board(self.board@, self.dim as int, dir)
                &&& c.dim == self.dim
                &&& c.depth == self.depth + 1
                &&& c.next_move == Some(dir)
                &&& c.root_board() == self.root_board()
                &&& c.path_moves() == self.path_moves().push(dir)
                &&& c.hash_code == board_hash(c.board@)
            },
    {
        if !self.can_move(dir) {
            return None;
        }
        proof {
            lemma_zero_pos(self.board@);
            lemma_board_len(self.board@);
            crate::board::lemma_move_target(self.board@, self.dim as int, dir);
        }
        let zero_index = self.find_zero() as usize;
        let new_index: usize = match dir {
            Dir::Left => zero_index - 1,
            Dir::Right => zero_index + 1,
            Dir::Up => zero_index - (self.dim as usize),
            Dir::Down => zero_index + (self.dim as usize),
        };
        let mut new_board = copy_board(&self.board);
        let tile = new_board[new_index];
        new_board[zero_index] = tile;
        new_board[new_index] = 0;
        proof {
            assert(new_board@ =~= child_board(self.board@, self.dim as int, dir));
        }
        Some(Self::with_parent(new_board, self, dir))
    }

    /// Filters the given move order down to the legal moves, keeping the
    /// order's relative sequence.
    pub fn get_valid_moves(&self, order: [Dir; 4]) -> (r: Vec<Dir>)
        requires
            self.wf(),
        ensures
            r@ == order@.filter(self.movable()),
            r@.len() <= 4,
    {
        let mut r: Vec<Dir> = Vec::new();
        let mut i: usize = 0;
        while i < 4
            invariant
                self.wf(),
                i <= 4,
                order@.len() == 4,
                r@ == order@.take(i as int).filter(self.movable()),
                r@.len() <= i,
            decreases 4 - i,
        {
            let d = order[i];
            proof {
                lemma_filter_push(order@.take(i as int), self.movable(), d);
                assert(order@.take(i + 1) =~= order@.take(i as int).push(d));
            }
            if self.can_move(d) {
                r.push(d);
            }
            i = i + 1;
        }
        proof {
            assert(order@.take(4) =~= order@);
        }
        r
    }

    /// The ordered list of all legal children, in the given priority
    /// order: each child is one move deeper and differs from this board
    /// by exactly the swap of the blank with one adjacent tile.
    pub fn get_child_nodes(&self, order: [Dir; 4]) -> (r: Vec<Node>)
        requires
            self.wf(),
            self.depth < 255,
        ensures
            r@.len() == order@.filter(self.movable()).len(),
            r@.len() <= 4,
            forall|i: int| 0 <= i < r@.len() ==> {
                let ms = order@.filter(self.movable());
                let c = #[trigger] r@[i];
                &&& c.wf()
                &&& c.dim == self.dim
                &&& c.depth == self.depth + 1
                &&& c.next_move == Some(ms[i])
                &&& c.board@ == child_board(self.board@, self.dim as int, ms[i])
                &&& c.root_board() == self.root_board()
                &&& c.path_moves() == self.path_moves().push(ms[i])
                &&& c.hash_code == board_hash(c.board@)
            },
    {
        let ghost ms = order@.filter(self.movable());
        let moves = self.get_valid_moves(order);
        let mut r: Vec<Node> = Vec::new();
        let mut i: usize = 0;
        while i < moves.len()
            invariant
                self.wf(),
                self.depth < 255,
                ms == moves@,
                moves@ == order@.filter(self.movable()),
                i <= moves@.len(),
                r@.len() == i,
                forall|j: int| 0 <= j < i ==> {
                    let c = #[trigger] r@[j];
                    &&& c.wf()
                    &&& c.dim == self.dim
                    &&& c.depth == self.depth + 1
                    &&& c.next_move == Some(ms[j])
                    &&& c.board@ == child_board(self.board@, self.dim as int, ms[j])
                    &&& c.root_board() == self.root_board()
                    &&& c.path_moves() == self.path_moves().push(ms[j])
                    &&& c.hash_code == board_hash(c.board@)
                },
            decreases moves@.len() - i,
        {
            let d = moves[i];
            proof {
                assert(ms[i as int] == d);
                order@.lemma_filter_pred(self.movable(), i as int);
            }
            let c = match self.get_node_for_move(d) {
                Some(c) => c,
                None => unreached(),
            };
            r.push(c);
            i = i + 1;
        }
        r
    }

    /// The legal children in reverse of the given priority order, as a
    /// stack-based search wants them pushed.
    pub fn get_child_nodes_reverse(&self, order: [Dir; 4]) -> (r: Vec<Node>)
        requires
            self.wf(),
            self.depth < 255,
        ensures
            r@.len() == order@.filter(self.movable()).len(),
            r@.len() <= 4,
            forall|i: int| 0 <= i < r@.len() ==> {
                let ms = order@.filter(self.movable());
                let c = #[trigger] r@[i];
                &&& c.wf()
                &&& c.dim == self.dim
                &&& c.depth == self.depth + 1
                &&& c.next_move == Some(ms[ms.len() - 1 - i])
                &&& c.board@ == child_board(self.board@, self.dim as int, ms[ms.len() - 1 - i])
                &&& c.root_board() == self.root_board()
                &&& c.path_moves() == self.path_moves().push(ms[ms.len() - 1 - i])
                &&& c.hash_code == board_hash(c.board@)
            },
    {
        let mut nodes = self.get_child_nodes(order);
        let ghost orig = nodes@;
        let mut r: Vec<Node> = Vec::new();
        while nodes.len() > 0
            invariant
                nodes@.len() + r@.len() == orig.len(),
                nodes@ == orig.take(nodes@.len() as int),
                forall|k: int| 0 <= k < r@.len() ==> #[trigger] r@[k] == orig[orig.len() - 1 - k],
            decreases nodes@.len(),
        {
            let c = match nodes.pop() {
                Some(c) => c,
                None => unreached(),
            };
            proof {
                assert(c == orig[nodes@.len() as int]);
                assert(nodes@ =~= orig.take(nodes@.len() as int));
            }
            r.push(c);
        }
        r
    }

    /// An iterator over the moves that produced this state, newest first.
    pub fn dir_iter(&self) -> (r: NodePathIterator)
        requires
            self.wf(),
        ensures
            r.current matches Some(c) && like(*c, *self),
            r.wf(),
    {
        let c = self.clone();
        proof {
            lemma_like_node(c, *self);
        }
        NodePathIterator { current: Some(Rc::new(c)) }
    }
}

/// Walks a node's parent chain, yielding the move that produced each
/// state, newest first.
pub struct NodePathIterator {
    pub current: Option<Rc<Node>>,
}

impl NodePathIterator {
    /// The iterator either is exhausted or stands on a well-formed node.
    pub open spec fn wf(self) -> bool {
        match self.current {
            None => true,
            Some(c) => (*c).wf(),
        }
    }

    /// Yields the move that produced the current state and steps to its
    /// parent; yields no value once the root has been passed.
    pub fn next(&mut self) -> (r: Option<Dir>)
        requires
            old(self).wf(),
        ensures
            final(self).wf(),
            old(self).current is None ==> r is None && final(self).current is None,
            old(self).current matches Some(c) ==> r == (*c).next_move && final(self).current == (*c).parent,
    {
        let current_state = self.current.take();
        match current_state {
            None => None,
            Some(state) => {
                self.current = match &(*state).parent {
                    None => None,
                    Some(p) => Some(rc_dup(p)),
                };
                (*state).next_move
            },
        }
    }
}

proof fn lemma_count_all_false(s: Seq<bool>)
    requires
        forall|j: int| 0 <= j < s.len() ==> !s[j],
    ensures
        count_true(s) == 0,
    decreases s.len(),
{
    if s.len() > 0 {
        lemma_count_all_false(s.drop_last());
    }
}

} // verus!
