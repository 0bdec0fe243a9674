//! What the pass manager hands a pass and what it records per tick.

use vstd::prelude::*;

verus! {

/// The tick a pass's diff will be recorded at. Certificates that must
/// name their tick cite it; the pass does not guess it.
#[derive(Clone, Copy, Debug)]
pub struct TickCtx {
    pub tick: u64,
}

/// One line of the manager's audit trail: what was checked at a tick.
/// `verified` and `conserved` are only ever true: a violation aborts the
/// run with an error instead.
#[derive(Clone, Debug, PartialEq)]
pub struct TickAudit {
    pub tick: u64,
    pub pass: &'static str,
    pub edits: usize,
    pub advanced: bool,
    pub verified: bool,
    pub conserved: bool,
}

} // verus!
