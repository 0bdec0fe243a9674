//! Newtype ids. Cheap to copy, hard to confuse.

use vstd::prelude::*;
use crate::dec::{dec, push_dec};

verus! {

/// A cell's identity. Ids are slab indices; once assigned, never reused.
#[derive(Clone, Copy, PartialEq, Eq, Hash, Debug, PartialOrd, Ord, Structural)]
pub struct CellId(pub u32);

/// A region's identity (index into the fabric's region list).
#[derive(Clone, Copy, PartialEq, Eq, Hash, Debug, PartialOrd, Ord, Structural)]
pub struct RegionId(pub u32);

/// The textual form of a cell id: `%` and the number.
pub open spec fn cell_id_text(id: CellId) -> Seq<char> {
    seq!['%'] + dec(id.0 as nat)
}

/// The textual form of a region id: `#` and the number.
pub open spec fn region_id_text(r: RegionId) -> Seq<char> {
    seq!['#'] + dec(r.0 as nat)
}

impl CellId {
    pub fn as_u32(self) -> (r: u32)
        ensures
            r == self.0,
    {
        self.0
    }

    /// The textual form, `%N` (what `{}` formatting writes).
    pub fn to_text(self) -> (s: String)
        ensures
            s@ == cell_id_text(self),
    {
        let mut s = String::new();
        s.push('%');
        push_dec(&mut s, self.0 as u64);
        assert(s@ =~= cell_id_text(self));
        s
    }
}

impl RegionId {
    pub fn as_u32(self) -> (r: u32)
        ensures
            r == self.0,
    {
        self.0
    }

    /// The textual form, `#N` (what `{}` formatting writes).
    pub fn to_text(self) -> (s: String)
        ensures
            s@ == region_id_text(self),
    {
        let mut s = String::new();
        s.push('#');
        push_dec(&mut s, self.0 as u64);
        assert(s@ =~= region_id_text(self));
        s
    }
}

} // verus!
