//! A fixed selection of search orders used when comparing strategies
//! over batches of puzzles.

use vstd::prelude::*;

use crate::direction::Dir;
use crate::order::Order;

verus! {

/// Eight direction permutations, named by their letter codes.
#[derive(Clone, Copy, Debug)]
pub enum So {
    Rdul,
    Rdlu,
    Drul,
    Drlu,
    Ulrd,
    Uldr,
    Lurd,
    Ludr,
}

impl So {
    /// The direction permutation this order denotes.
    pub open spec fn spec_dirs(self) -> Seq<Dir> {
        match self {
            So::Rdul => seq![Dir::Right, Dir::Down, Dir::Up, Dir::Left],
            So::Rdlu => seq![Dir::Right, Dir::Down, Dir::Left, Dir::Up],
            So::Drul => seq![Dir::Down, Dir::Right, Dir::Up, Dir::Left],
            So::Drlu => seq![Dir::Down, Dir::Right, Dir::Left, Dir::Up],
            So::Ulrd => seq![Dir::Up, Dir::Left, Dir::Right, Dir::Down],
            So::Uldr => seq![Dir::Up, Dir::Left, Dir::Down, Dir::Right],
            So::Lurd => seq![Dir::Left, Dir::Up, Dir::Right, Dir::Down],
            So::Ludr => seq![Dir::Left, Dir::Up, Dir::Down, Dir::Right],
        }
    }

    /// All eight orders, in a fixed sequence.
    pub fn values() -> (r: [So; 8])
        ensures
            r@ == seq![
                So::Rdul,
                So::Rdlu,
                So::Drul,
                So::Drlu,
                So::Ulrd,
                So::Uldr,
                So::Lurd,
                So::Ludr,
            ],
    {
        let r = [So::Rdul, So::Rdlu, So::Drul, So::Drlu, So::Ulrd, So::Uldr, So::Lurd, So::Ludr];
        proof {
            assert(r@ =~= seq![
                So::Rdul,
                So::Rdlu,
                So::Drul,
                So::Drlu,
                So::Ulrd,
                So::Uldr,
                So::Lurd,
                So::Ludr,
            ]);
        }
        r
    }

    /// The fixed-permutation ordering this order denotes.
    pub fn to_order(&self) -> (r: Order)
        ensures
            r matches Order::Perm(ds) && ds@ == self.spec_dirs(),
    {
        let r = match self {
            So::Rdul => Order::Perm([Dir::Right, Dir::Down, Dir::Up, Dir::Left]),
            So::Rdlu => Order::Perm([Dir::Right, Dir::Down, Dir::Left, Dir::Up]),
            So::Drul => Order::Perm([Dir::Down, Dir::Right, Dir::Up, Dir::Left]),
            So::Drlu => Order::Perm([Dir::Down, Dir::Right, Dir::Left, Dir::Up]),
            So::Ulrd => Order::Perm([Dir::Up, Dir::Left, Dir::Right, Dir::Down]),
            So::Uldr => Order::Perm([Dir::Up, Dir::Left, Dir::Down, Dir::Right]),
            So::Lurd => Order::Perm([Dir::Left, Dir::Up, Dir::Right, Dir::Down]),
            So::Ludr => Order::Perm([Dir::Left, Dir::Up, Dir::Down, Dir::Right]),
        };
        proof {
            match r {
                Order::Perm(ds) => {
                    assert(ds@ =~= self.spec_dirs());
                },
                _ => {
                    assert(false);
                },
            }
        }
        r
    }
}

} // verus!
