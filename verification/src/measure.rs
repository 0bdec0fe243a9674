//! The outcome of running one pipeline over one fabric.

use vstd::prelude::*;

verus! {

/// Sizes before and after, the work done, and whether the result
/// verified.
#[derive(Clone, Copy, Debug, PartialEq)]
pub struct Outcome {
    pub cells_in: usize,
    pub cells_out: usize,
    /// sum of input cell counts per pass run
    pub cost: usize,
    pub verify_ok: bool,
}

} // verus!
