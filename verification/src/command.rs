//! The selectable configuration the boundary layer hands the engine:
//! which fixed search order or which heuristic to run under.

use vstd::prelude::*;

use crate::direction::Dir;
use crate::order::Order;

verus! {

/// The 24 fixed permutations of the four directions, named by their
/// letter codes, as the exhaustive searches select them.
#[derive(Clone, Copy, Debug)]
pub enum SearchOrder {
    Rdul,
    Rdlu,
    Ruld,
    Rudl,
    Rlud,
    Rldu,
    Drul,
    Drlu,
    Dulr,
    Durl,
    Dlur,
    Dlru,
    Ulrd,
    Uldr,
    Urld,
    Urdl,
    Udlr,
    Udrl,
    Lrud,
    Lrdu,
    Lurd,
    Ludr,
    Ldur,
    Ldru,
}

impl SearchOrder {
    /// The direction permutation this name denotes.
    pub open spec fn spec_dirs(self) -> Seq<Dir> {
        match self {
            SearchOrder::Rdul => seq![Dir::Right, Dir::Down, Dir::Up, Dir::Left],
            SearchOrder::Rdlu => seq![Dir::Right, Dir::Down, Dir::Left, Dir::Up],
            SearchOrder::Ruld => seq![Dir::Right, Dir::Up, Dir::Left, Dir::Down],
            SearchOrder::Rudl => seq![Dir::Right, Dir::Up, Dir::Down, Dir::Left],
            SearchOrder::Rlud => seq![Dir::Right, Dir::Left, Dir::Up, Dir::Down],
            SearchOrder::Rldu => seq![Dir::Right, Dir::Left, Dir::Down, Dir::Up],
            SearchOrder::Drul => seq![Dir::Down, Dir::Right, Dir::Up, Dir::Left],
            SearchOrder::Drlu => seq![Dir::Down, Dir::Right, Dir::Left, Dir::Up],
            SearchOrder::Dulr => seq![Dir::Down, Dir::Up, Dir::Left, Dir::Right],
            SearchOrder::Durl => seq![Dir::Down, Dir::Up, Dir::Right, Dir::Left],
            SearchOrder::Dlur => seq![Dir::Down, Dir::Left, Dir::Up, Dir::Right],
            SearchOrder::Dlru => seq![Dir::Down, Dir::Left, Dir::Right, Dir::Up],
            SearchOrder::Ulrd => seq![Dir::Up, Dir::Left, Dir::Right, Dir::Down],
            SearchOrder::Uldr => seq![Dir::Up, Dir::Left, Dir::Down, Dir::Right],
            SearchOrder::Urld => seq![Dir::Up, Dir::Right, Dir::Left, Dir::Down],
            SearchOrder::Urdl => seq![Dir::Up, Dir::Right, Dir::Down, Dir::Left],
            SearchOrder::Udlr => seq![Dir::Up, Dir::Down, Dir::Left, Dir::Right],
            SearchOrder::Udrl => seq![Dir::Up, Dir::Down, Dir::Right, Dir::Left],
            SearchOrder::Lrud => seq![Dir::Left, Dir::Right, Dir::Up, Dir::Down],
            SearchOrder::Lrdu => seq![Dir::Left, Dir::Right, Dir::Down, Dir::Up],
            SearchOrder::Lurd => seq![Dir::Left, Dir::Up, Dir::Right, Dir::Down],
            SearchOrder::Ludr => seq![Dir::Left, Dir::Up, Dir::Down, Dir::Right],
            SearchOrder::Ldur => seq![Dir::Left, Dir::Down, Dir::Up, Dir::Right],
            SearchOrder::Ldru => seq![Dir::Left, Dir::Down, Dir::Right, Dir::Up],
        }
    }

    /// The fixed-permutation ordering this name denotes.
    pub fn to_order(&self) -> (r: Order)
        ensures
            r matches Order::Perm(ds) && ds@ == self.spec_dirs(),
    {
        let r = match self {
            SearchOrder::Rdul => Order::Perm([Dir::Right, Dir::Down, Dir::Up, Dir::Left]),
            SearchOrder::Rdlu => Order::Perm([Dir::Right, Dir::Down, Dir::Left, Dir::Up]),
            SearchOrder::Ruld => Order::Perm([Dir::Right, Dir::Up, Dir::Left, Dir::Down]),
            SearchOrder::Rudl => Order::Perm([Dir::Right, Dir::Up, Dir::Down, Dir::Left]),
            SearchOrder::Rlud => Order::Perm([Dir::Right, Dir::Left, Dir::Up, Dir::Down]),
            SearchOrder::Rldu => Order::Perm([Dir::Right, Dir::Left, Dir::Down, Dir::Up]),
            SearchOrder::Drul => Order::Perm([Dir::Down, Dir::Right, Dir::Up, Dir::Left]),
            SearchOrder::Drlu => Order::Perm([Dir::Down, Dir::Right, Dir::Left, Dir::Up]),
            SearchOrder::Dulr => Order::Perm([Dir::Down, Dir::Up, Dir::Left, Dir::Right]),
            SearchOrder::Durl => Order::Perm([Dir::Down, Dir::Up, Dir::Right, Dir::Left]),
            SearchOrder::Dlur => Order::Perm([Dir::Down, Dir::Left, Dir::Up, Dir::Right]),
            SearchOrder::Dlru => Order::Perm([Dir::Down, Dir::Left, Dir::Right, Dir::Up]),
            SearchOrder::Ulrd => Order::Perm([Dir::Up, Dir::Left, Dir::Right, Dir::Down]),
            SearchOrder::Uldr => Order::Perm([Dir::Up, Dir::Left, Dir::Down, Dir::Right]),
            SearchOrder::Urld => Order::Perm([Dir::Up, Dir::Right, Dir::Left, Dir::Down]),
            SearchOrder::Urdl => Order::Perm([Dir::Up, Dir::Right, Dir::Down, Dir::Left]),
            SearchOrder::Udlr => Order::Perm([Dir::Up, Dir::Down, Dir::Left, Dir::Right]),
            SearchOrder::Udrl => Order::Perm([Dir::Up, Dir::Down, Dir::Right, Dir::Left]),
            SearchOrder::Lrud => Order::Perm([Dir::Left, Dir::Right, Dir::Up, Dir::Down]),
            SearchOrder::Lrdu => Order::Perm([Dir::Left, Dir::Right, Dir::Down, Dir::Up]),
            SearchOrder::Lurd => Order::Perm([Dir::Left, Dir::Up, Dir::Right, Dir::Down]),
            SearchOrder::Ludr => Order::Perm([Dir::Left, Dir::Up, Dir::Down, Dir::Right]),
            SearchOrder::Ldur => Order::Perm([Dir::Left, Dir::Down, Dir::Up, Dir::Right]),
            SearchOrder::Ldru => Order::Perm([Dir::Left, Dir::Down, Dir::Right, Dir::Up]),
        };
        proof {
            match r {
                Order::Perm(ds) => {
                    assert(ds@ =~= self.spec_dirs());
                },
                _ => {
                    assert(false);
                },
            }
        }
        r
    }
}

/// The two admissible cost functions best-first search selects between.
#[derive(Clone, Copy, Debug)]
pub enum HeuristicType {
    Manh,
    Hamm,
}

impl HeuristicType {
    /// The heuristic ordering this name denotes.
    pub fn to_order(&self) -> (r: Order)
        ensures
            r == match *self {
                HeuristicType::Manh => Order::Manh,
                HeuristicType::Hamm => Order::Hamm,
            },
    {
        match self {
            HeuristicType::Manh => Order::Manh,
            HeuristicType::Hamm => Order::Hamm,
        }
    }
}

} // verus!
