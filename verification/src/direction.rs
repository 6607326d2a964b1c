//! The four move primitives: which way the blank cell slides.

use vstd::prelude::*;

verus! {

/// One move of the blank cell.
#[derive(Clone, Copy, Debug, PartialEq, Eq, Structural, Hash)]
pub enum Dir {
    Up,
    Down,
    Left,
    Right,
}

/// Whether an order names every one of the four directions.
pub open spec fn covers_all(ds: Seq<Dir>) -> bool {
    &&& ds.contains(Dir::Up)
    &&& ds.contains(Dir::Down)
    &&& ds.contains(Dir::Left)
    &&& ds.contains(Dir::Right)
}

impl Dir {
    /// The inverse of a move.
    pub open spec fn spec_reverse(self) -> Dir {
        match self {
            Dir::Up => Dir::Down,
            Dir::Down => Dir::Up,
            Dir::Left => Dir::Right,
            Dir::Right => Dir::Left,
        }
    }

    /// The single-letter code of a move.
    pub open spec fn spec_char(self) -> char {
        match self {
            Dir::Up => 'U',
            Dir::Down => 'D',
            Dir::Left => 'L',
            Dir::Right => 'R',
        }
    }

    /// The move denoted by a single character, if any.
    pub open spec fn spec_from_char(c: char) -> Option<Dir> {
        if c == 'U' {
            Some(Dir::Up)
        } else if c == 'D' {
            Some(Dir::Down)
        } else if c == 'L' {
            Some(Dir::Left)
        } else if c == 'R' {
            Some(Dir::Right)
        } else {
            None
        }
    }

    /// All four moves, in the canonical order.
    pub fn values() -> (r: [Dir; 4])
        ensures
            r@ == seq![Dir::Up, Dir::Down, Dir::Left, Dir::Right],
    {
        let r = [Dir::Up, Dir::Down, Dir::Left, Dir::Right];
        proof {
            assert(r@ =~= seq![Dir::Up, Dir::Down, Dir::Left, Dir::Right]);
        }
        r
    }

    /// Maps a move to its inverse.
    pub fn reverse(&self) -> (r: Dir)
        ensures
            r == self.spec_reverse(),
    {
        match self {
            Dir::Up => Dir::Down,
            Dir::Down => Dir::Up,
            Dir::Left => Dir::Right,
            Dir::Right => Dir::Left,
        }
    }

    /// Renders a move as its single-letter code (U/D/L/R).
    pub fn to_char(&self) -> (c: char)
        ensures
            c == self.spec_char(),
    {
        match self {
            Dir::Up => 'U',
            Dir::Down => 'D',
            Dir::Left => 'L',
            Dir::Right => 'R',
        }
    }

    /// Parses a move from its single-letter code; any other character
    /// yields no value.
    pub fn from_char(c: char) -> (r: Option<Dir>)
        ensures
            r == Self::spec_from_char(c),
    {
        match c {
            'U' => Some(Dir::Up),
            'D' => Some(Dir::Down),
            'L' => Some(Dir::Left),
            'R' => Some(Dir::Right),
            _ => None,
        }
    }

    /// Parses a four-letter order string (such as "RDUL") into an ordered
    /// tuple of moves. Fails unless the string holds exactly four valid
    /// move letters.
    pub fn to_dirs(order: &str) -> (r: Option<[Dir; 4]>)
        ensures
            r is Some <==> (order@.len() == 4 && forall|i: int|
                0 <= i < 4 ==> Self::spec_from_char(order@[i]) is Some),
            r matches Some(ds) ==> forall|i: int|
                0 <= i < 4 ==> Self::spec_from_char(order@[i]) == Some(ds@[i]),
    {
        let n = order.unicode_len();
        if n != 4 {
            return None;
        }
        let mut ds: [Dir; 4] = [Dir::Up, Dir::Up, Dir::Up, Dir::Up];
        let mut i: usize = 0;
        while i < 4
            invariant
                order@.len() == 4,
                0 <= i <= 4,
                forall|j: int| 0 <= j < i ==> Self::spec_from_char(order@[j]) == Some(ds@[j]),
            decreases 4 - i,
        {
            let c = order.get_char(i);
            match Self::from_char(c) {
                Some(d) => {
                    ds[i] = d;
                },
                None => {
                    return None;
                },
            }
            i = i + 1;
        }
        Some(ds)
    }
}

} // verus!
