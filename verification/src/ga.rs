//! Coverage of the shape-audit items by a fabric, and the genetic
//! search's configuration.

use vstd::prelude::*;

verus! {

/// Item coverage of one fabric.
#[derive(Clone, Debug, Default, PartialEq)]
pub struct Coverage {
    pub items: [bool; 11],
    /// wires from a phi into arith/cmp/branch
    pub phi_consumers: usize,
    pub calls: usize,
    pub boundary_consts: usize,
}

/// How many of the first `n` entries are set.
pub open spec fn count_set(s: Seq<bool>, n: int) -> nat
    decreases n,
{
    if n <= 0 {
        0
    } else {
        count_set(s, n - 1) + if s[n - 1] { 1nat } else { 0nat }
    }
}

impl Coverage {
    /// The number of covered items.
    pub fn n_items(&self) -> (n: usize)
        ensures
            n == count_set(self.items@, 11),
    {
        let mut n: usize = 0;
        let mut i: usize = 0;
        while i < 11
            invariant
                i <= 11,
                n == count_set(self.items@, i as int),
                n <= i,
            decreases 11 - i,
        {
            if self.items[i] {
                n = n + 1;
            }
            i = i + 1;
        }
        n
    }
}

/// The genetic search's parameters.
#[derive(Clone, Debug)]
pub struct GaConfig {
    pub population: usize,
    pub generations: usize,
    pub elite: usize,
    pub tournament: usize,
    pub seed: u64,
}

impl Default for GaConfig {
    fn default() -> (c: Self)
        ensures
            c.population == 200 && c.generations == 50 && c.elite == 20 && c.tournament == 5
                && c.seed == 0x6A1C0,
    {
        GaConfig { population: 200, generations: 50, elite: 20, tournament: 5, seed: 0x6A1C0 }
    }
}

} // verus!
