//! The fabric: regions of cells, wires as use edges, slab storage with
//! stable ids. Ids are never reused; removed cells leave `None` holes.

use vstd::prelude::*;
use crate::cell::{Cell, CellKind, CellV, KindV, kind_is_terminator};
use crate::id::{CellId, RegionId, cell_id_text, region_id_text};
use crate::chars::push_str;
use crate::ty::Type;
use crate::usetables::{UseTables, kind_succs_spec, uses_sorted, row_at, ROW_GROW_LIMIT, use_key};

verus! {

#[derive(Clone, PartialEq, Debug)]
pub struct Region {
    pub name: String,
    /// Cells in program order. The last one must be the terminator.
    pub cells: Vec<CellId>,
}

/// One use edge: value `from` (a def) flows into slot `slot` of `to`.
#[derive(Clone, Copy, PartialEq, Eq, Debug, Structural)]
pub struct Wire {
    pub from: CellId,
    pub to: CellId,
    pub slot: u32,
}

#[derive(Clone, Debug)]
pub struct Fabric {
    /// regions[0] is the entry region, when any.
    pub regions: Vec<Region>,
    /// Cell slab. `None` = removed (or not yet assigned). Index = CellId.
    pub slab: Vec<Option<Cell>>,
    /// Maintained use/pred/succ tables: derived from the content, kept in
    /// step by every sanctioned edit.
    pub tables: UseTables,
}

/// The model of the cell under id `i`, if present.
pub open spec fn cell_at(f: Fabric, i: int) -> Option<CellV> {
    if 0 <= i < f.slab@.len() {
        match f.slab@[i] {
            Some(c) => Some(c@),
            None => None,
        }
    } else {
        None
    }
}

/// `u` (user, slot) is a use edge of `def` in the fabric's content.
pub open spec fn is_use_of(f: Fabric, def: int, u: (CellId, u32)) -> bool {
    &&& cell_at(f, u.0.0 as int) is Some
    &&& (u.1 as int) < cell_at(f, u.0.0 as int)->0.operands.len()
    &&& cell_at(f, u.0.0 as int)->0.operands[u.1 as int].0 == def
}

/// Successor regions of region `r`, from its last cell's kind.
pub open spec fn region_succs(f: Fabric, r: int) -> Seq<RegionId> {
    let cells = f.regions@[r].cells@;
    if cells.len() > 0 && cell_at(f, cells.last().0 as int) is Some {
        kind_succs_spec(cell_at(f, cells.last().0 as int)->0.kind)
    } else {
        Seq::empty()
    }
}

/// Some present cell has an operand with an id in `[lo, hi)`.
pub open spec fn refers_into(f: Fabric, lo: int, hi: int) -> bool {
    exists|i: int, k: int| #[trigger] cell_at(f, i) is Some && 0 <= k < cell_at(f, i)->0.operands.len()
        && lo <= (#[trigger] cell_at(f, i)->0.operands[k]).0 < hi
}

/// The tables say exactly what the content says.
pub open spec fn tables_match(f: Fabric, t: UseTables) -> bool {
    &&& t.users@.len() == f.slab@.len()
    &&& forall|d: int| 0 <= d < t.users@.len() ==> uses_sorted(#[trigger] t.users@[d]@)
    &&& forall|d: int, u: (CellId, u32)| 0 <= d < t.users@.len() ==>
        (#[trigger] t.users@[d]@.contains(u) <==> is_use_of(f, d, u))
    &&& t.succs@.len() >= f.regions@.len()
    &&& forall|r: int| 0 <= r < f.regions@.len() ==> (#[trigger] t.succs@[r])@ == region_succs(f, r)
    &&& forall|r: int| f.regions@.len() <= r < t.succs@.len() ==> (#[trigger] t.succs@[r])@.len() == 0
    &&& t.links_agree()
}

/// Every listed cell is present in the region it names, lists are free of
/// duplicates, every present cell is listed in its region, and ids fit
/// their integer widths.
pub open spec fn content_wf(f: Fabric) -> bool {
    &&& f.slab@.len() <= u32::MAX
    &&& f.regions@.len() < u32::MAX
    &&& forall|r: int, k: int| 0 <= r < f.regions@.len() && 0 <= k < f.regions@[r].cells@.len() ==> {
        let id = (#[trigger] f.regions@[r].cells@[k]).0 as int;
        &&& cell_at(f, id) is Some
        &&& cell_at(f, id)->0.region.0 == r
    }
    &&& forall|r: int, k1: int, k2: int| 0 <= r < f.regions@.len() && 0 <= k1 < k2 < f.regions@[r].cells@.len()
        ==> #[trigger] f.regions@[r].cells@[k1] != #[trigger] f.regions@[r].cells@[k2]
    &&& forall|i: int| #[trigger] cell_at(f, i) is Some ==> {
        &&& (cell_at(f, i)->0.region.0 as int) < f.regions@.len()
        &&& f.regions@[cell_at(f, i)->0.region.0 as int].cells@.contains(CellId(i as u32))
        &&& cell_at(f, i)->0.operands.len() <= u32::MAX
    }
}

impl Fabric {
    /// The fabric is well formed and its tables equal what its content
    /// derives.
    pub open spec fn wf(&self) -> bool {
        content_wf(*self) && tables_match(*self, self.tables)
    }

    pub fn empty() -> (f: Fabric)
        ensures
            f.regions@.len() == 0,
            f.slab@.len() == 0,
            f.tables.users@.len() == 0,
            f.tables.succs@.len() == 0,
            f.tables.preds@.len() == 0,
            f.wf(),
    {
        let f = Fabric {
            regions: Vec::new(),
            slab: Vec::new(),
            tables: UseTables { users: Vec::new(), succs: Vec::new(), preds: Vec::new() },
        };
        assert(f.tables.links_agree());
        f
    }

    pub fn add_region(&mut self, name: &str) -> (r: RegionId)
        requires
            old(self).regions@.len() < u32::MAX,
        ensures
            r.0 == old(self).regions@.len(),
            final(self).regions@.len() == old(self).regions@.len() + 1,
            forall|i: int| 0 <= i < old(self).regions@.len() ==> #[trigger] final(self).regions@[i] == old(self).regions@[i],
            final(self).regions@[r.0 as int].name@ == name@,
            final(self).regions@[r.0 as int].cells@.len() == 0,
            final(self).slab == old(self).slab,
            old(self).wf() && old(self).regions@.len() < ROW_GROW_LIMIT ==> final(self).wf(),
    {
        let ghost o = *self;
        self.regions.push(Region { name: String::from_str(name), cells: Vec::new() });
        let n = self.regions.len();
        self.tables.ensure_rows(n);
        proof {
            if o.wf() && o.regions@.len() < ROW_GROW_LIMIT {
                let f = *self;
                assert forall|i: int| cell_at(f, i) == cell_at(o, i) by {}
                assert forall|r: int, k: int| 0 <= r < f.regions@.len() && 0 <= k < f.regions@[r].cells@.len() implies {
                    let id = (#[trigger] f.regions@[r].cells@[k]).0 as int;
                    &&& cell_at(f, id) is Some
                    &&& cell_at(f, id)->0.region.0 == r
                } by {
                    assert(r < o.regions@.len());
                    assert(f.regions@[r] == o.regions@[r]);
                }
                assert forall|r: int, k1: int, k2: int| 0 <= r < f.regions@.len() && 0 <= k1 < k2 < f.regions@[r].cells@.len()
                    implies #[trigger] f.regions@[r].cells@[k1] != #[trigger] f.regions@[r].cells@[k2] by {
                    assert(f.regions@[r] == o.regions@[r]);
                }
                assert forall|i: int| #[trigger] cell_at(f, i) is Some implies {
                    &&& (cell_at(f, i)->0.region.0 as int) < f.regions@.len()
                    &&& f.regions@[cell_at(f, i)->0.region.0 as int].cells@.contains(CellId(i as u32))
                    &&& cell_at(f, i)->0.operands.len() <= u32::MAX
                } by {
                    assert(cell_at(o, i) is Some);
                    assert(f.regions@[cell_at(f, i)->0.region.0 as int] == o.regions@[cell_at(f, i)->0.region.0 as int]);
                }
                assert forall|d: int, u: (CellId, u32)| 0 <= d < f.tables.users@.len() implies
                    (#[trigger] f.tables.users@[d]@.contains(u) <==> is_use_of(f, d, u)) by {
                    assert(is_use_of(f, d, u) == is_use_of(o, d, u));
                }
                assert forall|r: int| 0 <= r < f.regions@.len() implies (#[trigger] f.tables.succs@[r])@ == region_succs(f, r) by {
                    if r < o.regions@.len() {
                        assert(f.regions@[r] == o.regions@[r]);
                        assert(region_succs(f, r) == region_succs(o, r));
                        assert(f.tables.succs@[r] == o.tables.succs@[r]);
                    } else if r < o.tables.succs@.len() {
                        assert(f.tables.succs@[r] == o.tables.succs@[r]);
                    }
                }
                assert forall|r: int| f.regions@.len() <= r < f.tables.succs@.len() implies (#[trigger] f.tables.succs@[r])@.len() == 0 by {
                    if r < o.tables.succs@.len() {
                        assert(f.tables.succs@[r] == o.tables.succs@[r]);
                    }
                }
            }
        }
        RegionId((n - 1) as u32)
    }

    /// Table maintenance for a freshly placed cell: register its use
    /// edges, and when it landed at the end of its region, recompute that
    /// region's successor row.
    fn register_cell(&mut self, id: CellId, idx_in_region: usize)
        requires
            cell_at(*old(self), id.0 as int) is Some ==> (cell_at(*old(self), id.0 as int)->0.region.0 as int)
                < old(self).regions@.len(),
            idx_in_region < usize::MAX,
            cell_at(*old(self), id.0 as int) is Some ==> cell_at(*old(self), id.0 as int)->0.operands.len() <= u32::MAX,
        ensures
            final(self).slab == old(self).slab,
            final(self).regions == old(self).regions,
            final(self).tables.users@.len() == if old(self).tables.users@.len() < old(self).slab@.len() {
                old(self).slab@.len() as int
            } else {
                old(self).tables.users@.len() as int
            },
            forall|d: int, u: (CellId, u32)| 0 <= d < final(self).tables.users@.len() ==>
                (#[trigger] final(self).tables.users@[d]@.contains(u) <==> (row_at(old(self).tables.users@, d).contains(u)
                || (u.0 == id && cell_at(*old(self), id.0 as int) is Some && (u.1 as int) < cell_at(*old(self), id.0 as int)->0.operands.len()
                && cell_at(*old(self), id.0 as int)->0.operands[u.1 as int].0 == d))),
            (forall|d: int| 0 <= d < old(self).tables.users@.len() ==> uses_sorted(#[trigger] old(self).tables.users@[d]@)
                && forall|s: u32| !old(self).tables.users@[d]@.contains((id, s)))
                ==> forall|d: int| 0 <= d < final(self).tables.users@.len() ==> uses_sorted(#[trigger] final(self).tables.users@[d]@),
            ({
                let c = cell_at(*old(self), id.0 as int);
                let cells = if c is Some { old(self).regions@[c->0.region.0 as int].cells@ } else { Seq::empty() };
                if c is Some && cells.len() == idx_in_region + 1 && cells.last() == id {
                    old(self).tables.links_agree() && (c->0.region.0 as int) < old(self).tables.succs@.len() ==> {
                        &&& final(self).tables.links_agree()
                        &&& final(self).tables.succs@[c->0.region.0 as int]@ == kind_succs_spec(c->0.kind)
                        &&& final(self).tables.succs@.len() >= old(self).tables.succs@.len()
                        &&& forall|i: int| 0 <= i < old(self).tables.succs@.len() && i != c->0.region.0 ==> #[trigger] final(self).tables.succs@[i] == old(self).tables.succs@[i]
                        &&& forall|i: int| old(self).tables.succs@.len() <= i < final(self).tables.succs@.len() ==> (#[trigger] final(self).tables.succs@[i])@.len() == 0
                    }
                } else {
                    &&& final(self).tables.succs == old(self).tables.succs
                    &&& final(self).tables.preds == old(self).tables.preds
                }
            }),
    {
        let ghost o = *self;
        while self.tables.users.len() < self.slab.len()
            invariant
                self.slab == o.slab,
                self.regions == o.regions,
                self.tables.succs == o.tables.succs,
                self.tables.preds == o.tables.preds,
                o.tables.users@.len() <= self.tables.users@.len(),
                o.tables.users@.len() < o.slab@.len() ==> self.tables.users@.len() <= o.slab@.len(),
                o.tables.users@.len() >= o.slab@.len() ==> self.tables.users@.len() == o.tables.users@.len(),
                forall|d: int| 0 <= d < self.tables.users@.len() ==> #[trigger] self.tables.users@[d]@ == row_at(o.tables.users@, d),
            decreases self.slab@.len() - self.tables.users@.len(),
        {
            self.tables.users.push(Vec::new());
        }
        let ghost grown = self.tables.users@;
        let cell = match self.cell(id) {
            Some(c) => c.copy(),
            None => {
                proof {
                    assert forall|d: int, u: (CellId, u32)| 0 <= d < self.tables.users@.len() implies
                        (#[trigger] self.tables.users@[d]@.contains(u) <== row_at(o.tables.users@, d).contains(u)) by {}
                }
                return;
            },
        };
        let n = cell.operands.len();
        let mut slot: usize = 0;
        while slot < n
            invariant
                n == cell.operands@.len(),
                n <= u32::MAX,
                cell@ == cell_at(o, id.0 as int)->0,
                slot <= n,
                self.slab == o.slab,
                self.regions == o.regions,
                self.tables.succs == o.tables.succs,
                self.tables.preds == o.tables.preds,
                self.tables.users@.len() == grown.len(),
                forall|d: int| 0 <= d < grown.len() ==> #[trigger] grown[d]@ == row_at(o.tables.users@, d),
                forall|d: int, u: (CellId, u32)| 0 <= d < self.tables.users@.len() ==>
                    (#[trigger] self.tables.users@[d]@.contains(u) <==> (grown[d]@.contains(u)
                    || (u.0 == id && (u.1 as int) < slot && cell@.operands[u.1 as int].0 == d))),
                (forall|d: int| 0 <= d < grown.len() ==> uses_sorted(#[trigger] grown[d]@)
                    && forall|s: u32| !grown[d]@.contains((id, s)))
                    ==> forall|d: int| 0 <= d < self.tables.users@.len() ==> uses_sorted(#[trigger] self.tables.users@[d]@)
                        && forall|s: u32| !self.tables.users@[d]@.contains((id, s)) || (s as int) < slot,
            decreases n - slot,
        {
            let op = cell.operands[slot];
            let ghost before = self.tables.users@;
            proof {
                if forall|d: int| 0 <= d < grown.len() ==> uses_sorted(#[trigger] grown[d]@)
                    && forall|s: u32| !grown[d]@.contains((id, s)) {
                    if (op.0 as int) < before.len() {
                        assert(!before[op.0 as int]@.contains((id, slot as u32)));
                        crate::usetables::lemma_uses_insert(before[op.0 as int]@, (id, slot as u32));
                    }
                }
            }
            self.tables.add_use(op, id, slot as u32);
            proof {
                if (op.0 as int) < before.len() {
                    crate::usetables::lemma_uses_insert_members(before[op.0 as int]@, (id, slot as u32));
                }
                assert forall|d: int, u: (CellId, u32)| 0 <= d < self.tables.users@.len() implies
                    (#[trigger] self.tables.users@[d]@.contains(u) <==> (grown[d]@.contains(u)
                    || (u.0 == id && (u.1 as int) < slot + 1 && cell@.operands[u.1 as int].0 == d))) by {
                    if d != op.0 {
                        assert(self.tables.users@[d] == before[d]);
                    }
                }
            }
            slot = slot + 1;
        }
        let r = cell.region;
        let ri = r.0 as usize;
        let cells_len = self.regions[ri].cells.len();
        if cells_len == idx_in_region + 1 && self.regions[ri].cells[cells_len - 1].0 == id.0 {
            let succs = crate::usetables::kind_succs(&cell.kind);
            self.tables.set_succs(r, succs);
        }
        proof {
            assert forall|d: int, u: (CellId, u32)| 0 <= d < self.tables.users@.len() implies
                (#[trigger] self.tables.users@[d]@.contains(u) <==> (row_at(o.tables.users@, d).contains(u)
                || (u.0 == id && cell_at(o, id.0 as int) is Some && (u.1 as int) < cell_at(o, id.0 as int)->0.operands.len()
                && cell_at(o, id.0 as int)->0.operands[u.1 as int].0 == d))) by {
                assert(grown[d]@ == row_at(o.tables.users@, d));
            }
            if forall|d: int| 0 <= d < o.tables.users@.len() ==> uses_sorted(#[trigger] o.tables.users@[d]@)
                && forall|s: u32| !o.tables.users@[d]@.contains((id, s)) {
                assert forall|d: int| 0 <= d < grown.len() implies uses_sorted(#[trigger] grown[d]@)
                    && forall|s: u32| !grown[d]@.contains((id, s)) by {
                    assert(grown[d]@ == row_at(o.tables.users@, d));
                }
            }
            let c = cell_at(o, id.0 as int);
            let cells = o.regions@[c->0.region.0 as int].cells@;
            if cells.len() == idx_in_region + 1 && cells.last() == id {
                assert(cells[cells_len - 1].0 == id.0);
            } else if cells.len() == idx_in_region + 1 {
                assert(cells.last() == cells[cells_len - 1]);
                if cells[cells_len - 1].0 == id.0 {
                    assert(cells.last() == id);
                }
            }
        }
    }

    /// Append a cell to the end of a region. Ids are assigned densely
    /// (id == slab length) and never reused.
    pub fn add_cell(&mut self, region: RegionId, cell: Cell) -> (id: CellId)
        requires
            cell.region == region,
            (region.0 as int) < old(self).regions@.len(),
            old(self).slab@.len() < u32::MAX,
            cell.operands@.len() <= u32::MAX,
        ensures
            id.0 == old(self).slab@.len(),
            final(self).slab@ == old(self).slab@.push(Some(cell)),
            final(self).regions@.len() == old(self).regions@.len(),
            forall|i: int| 0 <= i < old(self).regions@.len() && i != region.0 ==> #[trigger] final(self).regions@[i] == old(self).regions@[i],
            final(self).regions@[region.0 as int].name == old(self).regions@[region.0 as int].name,
            final(self).regions@[region.0 as int].cells@ == old(self).regions@[region.0 as int].cells@.insert(
                if old(self).slab@.len() < old(self).regions@[region.0 as int].cells@.len() { old(self).slab@.len() as int } else { old(self).regions@[region.0 as int].cells@.len() as int },
                id,
            ),
            old(self).wf() && !refers_into(*old(self), old(self).slab@.len() as int, old(self).slab@.len() as int + 1)
                ==> final(self).wf(),
    {
        let n = self.slab.len();
        self.place_cell_at(region, n, cell)
    }

    /// Insert a cell at a position in the region's cell order (it still
    /// gets a fresh id at the end of the slab).
    pub fn insert_cell(&mut self, region: RegionId, index: usize, cell: Cell) -> (id: CellId)
        requires
            cell.region == region,
            (region.0 as int) < old(self).regions@.len(),
            old(self).slab@.len() < u32::MAX,
            cell.operands@.len() <= u32::MAX,
        ensures
            id.0 == old(self).slab@.len(),
            final(self).slab@ == old(self).slab@.push(Some(cell)),
            final(self).regions@.len() == old(self).regions@.len(),
            forall|i: int| 0 <= i < old(self).regions@.len() && i != region.0 ==> #[trigger] final(self).regions@[i] == old(self).regions@[i],
            final(self).regions@[region.0 as int].name == old(self).regions@[region.0 as int].name,
            final(self).regions@[region.0 as int].cells@ == old(self).regions@[region.0 as int].cells@.insert(
                if (index as int) < old(self).regions@[region.0 as int].cells@.len() { index as int } else { old(self).regions@[region.0 as int].cells@.len() as int },
                id,
            ),
            old(self).wf() && !refers_into(*old(self), old(self).slab@.len() as int, old(self).slab@.len() as int + 1)
                ==> final(self).wf(),
    {
        self.place_cell_at(region, index, cell)
    }

    fn place_cell_at(&mut self, region: RegionId, index: usize, cell: Cell) -> (id: CellId)
        requires
            cell.region == region,
            (region.0 as int) < old(self).regions@.len(),
            old(self).slab@.len() < u32::MAX,
            cell.operands@.len() <= u32::MAX,
        ensures
            id.0 == old(self).slab@.len(),
            final(self).slab@ == old(self).slab@.push(Some(cell)),
            final(self).regions@.len() == old(self).regions@.len(),
            forall|i: int| 0 <= i < old(self).regions@.len() && i != region.0 ==> #[trigger] final(self).regions@[i] == old(self).regions@[i],
            final(self).regions@[region.0 as int].name == old(self).regions@[region.0 as int].name,
            final(self).regions@[region.0 as int].cells@ == old(self).regions@[region.0 as int].cells@.insert(
                if (index as int) < old(self).regions@[region.0 as int].cells@.len() { index as int } else { old(self).regions@[region.0 as int].cells@.len() as int },
                id,
            ),
            old(self).wf() && !refers_into(*old(self), old(self).slab@.len() as int, old(self).slab@.len() as int + 1)
                ==> final(self).wf(),
    {
        let ghost o = *self;
        let ghost cv = cell@;
        let id = CellId(self.slab.len() as u32);
        self.slab.push(Some(cell));
        let ri = region.0 as usize;
        let len = self.regions[ri].cells.len();
        let idx = if index < len { index } else { len };
        self.regions[ri].cells.insert(idx, id);
        let newlen = self.regions[ri].cells.len();
        assert(idx < newlen);
        let ghost mid = *self;
        proof {
            assert forall|i: int| i != id.0 implies cell_at(mid, i) == cell_at(o, i) by {
                if 0 <= i < o.slab@.len() {
                    assert(mid.slab@[i] == o.slab@[i]);
                }
            }
            assert(cell_at(mid, id.0 as int) == Some(cv));
            assert(cell_at(o, id.0 as int) is None);
        }
        self.register_cell(id, idx);
        proof {
            let f = *self;
            assert forall|i: int| cell_at(f, i) == cell_at(mid, i) by {}
            if o.wf() && !refers_into(o, o.slab@.len() as int, o.slab@.len() as int + 1) {
                let ocells = o.regions@[ri as int].cells@;
                let ncells = f.regions@[ri as int].cells@;
                assert(ncells == ocells.insert(idx as int, id));
                // the fresh id was listed nowhere before
                assert forall|r: int, k: int| 0 <= r < o.regions@.len() && 0 <= k < o.regions@[r].cells@.len()
                    implies (#[trigger] o.regions@[r].cells@[k]) != id by {
                    assert(cell_at(o, o.regions@[r].cells@[k].0 as int) is Some);
                }
                // content
                assert forall|r: int, k: int| 0 <= r < f.regions@.len() && 0 <= k < f.regions@[r].cells@.len() implies {
                    let x = (#[trigger] f.regions@[r].cells@[k]).0 as int;
                    &&& cell_at(f, x) is Some
                    &&& cell_at(f, x)->0.region.0 == r
                } by {
                    if r != ri {
                        assert(f.regions@[r] == o.regions@[r]);
                        assert(cell_at(o, o.regions@[r].cells@[k].0 as int) is Some);
                    } else if k < idx {
                        assert(ncells[k] == ocells[k]);
                        assert(cell_at(o, ocells[k].0 as int) is Some);
                    } else if k > idx {
                        assert(ncells[k] == ocells[k - 1]);
                        assert(cell_at(o, ocells[k - 1].0 as int) is Some);
                    }
                }
                assert forall|r: int, k1: int, k2: int| 0 <= r < f.regions@.len() && 0 <= k1 < k2 < f.regions@[r].cells@.len()
                    implies #[trigger] f.regions@[r].cells@[k1] != #[trigger] f.regions@[r].cells@[k2] by {
                    if r != ri {
                        assert(f.regions@[r] == o.regions@[r]);
                    } else {
                        if k1 != idx && k2 != idx {
                            let a = if k1 < idx { k1 } else { k1 - 1 };
                            let b = if k2 < idx { k2 } else { k2 - 1 };
                            assert(ncells[k1] == ocells[a]);
                            assert(ncells[k2] == ocells[b]);
                            assert(o.regions@[r].cells@[a] != o.regions@[r].cells@[b]);
                        } else if k1 == idx {
                            let b = k2 - 1;
                            assert(ncells[k2] == ocells[b]);
                            assert(o.regions@[r].cells@[b] != id);
                        } else {
                            assert(ncells[k1] == ocells[k1]);
                            assert(o.regions@[r].cells@[k1] != id);
                        }
                    }
                }
                assert forall|i: int| #[trigger] cell_at(f, i) is Some implies {
                    &&& (cell_at(f, i)->0.region.0 as int) < f.regions@.len()
                    &&& f.regions@[cell_at(f, i)->0.region.0 as int].cells@.contains(CellId(i as u32))
                    &&& cell_at(f, i)->0.operands.len() <= u32::MAX
                } by {
                    if i == id.0 {
                        assert(ncells[idx as int] == id);
                        assert(CellId(i as u32) == id);
                    } else {
                        assert(cell_at(o, i) is Some);
                        let r = cell_at(o, i)->0.region.0 as int;
                        assert(o.regions@[r].cells@.contains(CellId(i as u32)));
                        if r == ri {
                            let k = choose|k: int| 0 <= k < ocells.len() && #[trigger] ocells[k] == CellId(i as u32);
                            if k < idx {
                                assert(ncells[k] == ocells[k]);
                            } else {
                                assert(ncells[k + 1] == ocells[k]);
                            }
                        } else {
                            assert(f.regions@[r] == o.regions@[r]);
                        }
                    }
                }
                // users
                assert forall|d: int, u: (CellId, u32)| 0 <= d < f.tables.users@.len() implies
                    (#[trigger] f.tables.users@[d]@.contains(u) <==> is_use_of(f, d, u)) by {
                    if u.0 == id {
                        if d < o.tables.users@.len() && o.tables.users@[d]@.contains(u) {
                            assert(is_use_of(o, d, u));
                        }
                    } else {
                        assert(cell_at(f, u.0.0 as int) == cell_at(o, u.0.0 as int));
                        if d == o.slab@.len() {
                            if is_use_of(o, d, u) {
                                assert(refers_into(o, o.slab@.len() as int, o.slab@.len() as int + 1)) by {
                                    assert(cell_at(o, u.0.0 as int)->0.operands[u.1 as int].0 == d);
                                }
                            }
                        }
                    }
                }
                assert forall|d: int| 0 <= d < o.tables.users@.len() implies uses_sorted(#[trigger] o.tables.users@[d]@)
                    && forall|s: u32| !o.tables.users@[d]@.contains((id, s)) by {
                    assert forall|s: u32| !o.tables.users@[d]@.contains((id, s)) by {
                        if o.tables.users@[d]@.contains((id, s)) {
                            assert(is_use_of(o, d, (id, s)));
                        }
                    }
                }
                // successors
                assert forall|r: int| 0 <= r < f.regions@.len() implies (#[trigger] f.tables.succs@[r])@ == region_succs(f, r) by {
                    if r != ri {
                        assert(f.regions@[r] == o.regions@[r]);
                        let cs = o.regions@[r].cells@;
                        if cs.len() > 0 {
                            assert(cs.last() == cs[cs.len() - 1]);
                            assert(cell_at(o, cs.last().0 as int) is Some);
                            assert(cs.last() != id);
                        }
                        assert(region_succs(f, r) == region_succs(o, r));
                        assert(f.tables.succs@[r] == o.tables.succs@[r]);
                    } else if idx == len {
                        assert(ncells.last() == id);
                    } else {
                        assert(ncells.last() == ocells.last());
                        assert(ocells.last() == ocells[ocells.len() - 1]);
                        assert(cell_at(o, ocells.last().0 as int) is Some);
                        assert(ocells.last() != id);
                        assert(region_succs(f, r) == region_succs(o, r));
                    }
                }
                assert forall|r: int| f.regions@.len() <= r < f.tables.succs@.len() implies (#[trigger] f.tables.succs@[r])@.len() == 0 by {
                    if r < o.tables.succs@.len() {
                        assert(f.tables.succs@[r] == o.tables.succs@[r]);
                    }
                }
            }
        }
        id
    }

    /// Table maintenance for a removed cell: drop its outgoing use edges;
    /// if it was its region's last cell, recompute that region's
    /// successors from whatever is last now.
    fn unregister_cell(&mut self, id: CellId, cell: &Cell, was_last: bool, region: RegionId)
        requires
            cell.operands@.len() <= u32::MAX,
        ensures
            final(self).slab == old(self).slab,
            final(self).regions == old(self).regions,
            final(self).tables.users@.len() == old(self).tables.users@.len(),
            (forall|d: int| 0 <= d < old(self).tables.users@.len() ==> uses_sorted(#[trigger] old(self).tables.users@[d]@)) ==> {
                &&& forall|d: int| 0 <= d < final(self).tables.users@.len() ==> uses_sorted(#[trigger] final(self).tables.users@[d]@)
                &&& forall|d: int, u: (CellId, u32)| 0 <= d < final(self).tables.users@.len() ==>
                    (#[trigger] final(self).tables.users@[d]@.contains(u) <==> (old(self).tables.users@[d]@.contains(u)
                    && !(u.0 == id && (u.1 as int) < cell.operands@.len() && cell.operands@[u.1 as int].0 == d)))
            },
            was_last && (region.0 as int) < old(self).tables.succs@.len() && old(self).tables.links_agree() ==> {
                let cs = if (region.0 as int) < old(self).regions@.len() { old(self).regions@[region.0 as int].cells@ } else { Seq::empty() };
                let ns = if cs.len() > 0 && cell_at(*old(self), cs.last().0 as int) is Some {
                    kind_succs_spec(cell_at(*old(self), cs.last().0 as int)->0.kind)
                } else {
                    Seq::empty()
                };
                &&& final(self).tables.links_agree()
                &&& final(self).tables.succs@[region.0 as int]@ == ns
                &&& final(self).tables.succs@.len() >= old(self).tables.succs@.len()
                &&& forall|i: int| 0 <= i < old(self).tables.succs@.len() && i != region.0 ==> #[trigger] final(self).tables.succs@[i] == old(self).tables.succs@[i]
                &&& forall|i: int| old(self).tables.succs@.len() <= i < final(self).tables.succs@.len() ==> (#[trigger] final(self).tables.succs@[i])@.len() == 0
            },
            !was_last ==> final(self).tables.succs == old(self).tables.succs && final(self).tables.preds == old(self).tables.preds,
    {
        let ghost o = *self;
        let n = cell.operands.len();
        let mut slot: usize = 0;
        while slot < n
            invariant
                n == cell.operands@.len(),
                n <= u32::MAX,
                slot <= n,
                self.slab == o.slab,
                self.regions == o.regions,
                self.tables.succs == o.tables.succs,
                self.tables.preds == o.tables.preds,
                self.tables.users@.len() == o.tables.users@.len(),
                (forall|d: int| 0 <= d < o.tables.users@.len() ==> uses_sorted(#[trigger] o.tables.users@[d]@)) ==> {
                    &&& forall|d: int| 0 <= d < self.tables.users@.len() ==> uses_sorted(#[trigger] self.tables.users@[d]@)
                    &&& forall|d: int, u: (CellId, u32)| 0 <= d < self.tables.users@.len() ==>
                        (#[trigger] self.tables.users@[d]@.contains(u) <==> (o.tables.users@[d]@.contains(u)
                        && !(u.0 == id && (u.1 as int) < slot && cell.operands@[u.1 as int].0 == d)))
                },
            decreases n - slot,
        {
            let op = cell.operands[slot];
            let ghost before = self.tables.users@;
            proof {
                if forall|d: int| 0 <= d < o.tables.users@.len() ==> uses_sorted(#[trigger] o.tables.users@[d]@) {
                    if (op.0 as int) < before.len() {
                        crate::usetables::lemma_uses_remove(before[op.0 as int]@, (id, slot as u32));
                    }
                }
            }
            self.tables.remove_use(op, id, slot as u32);
            proof {
                if forall|d: int| 0 <= d < o.tables.users@.len() ==> uses_sorted(#[trigger] o.tables.users@[d]@) {
                    assert forall|d: int, u: (CellId, u32)| 0 <= d < self.tables.users@.len() implies
                        (#[trigger] self.tables.users@[d]@.contains(u) <==> (o.tables.users@[d]@.contains(u)
                        && !(u.0 == id && (u.1 as int) < slot + 1 && cell.operands@[u.1 as int].0 == d))) by {
                        if d != op.0 {
                            assert(self.tables.users@[d] == before[d]);
                        }
                    }
                    assert forall|d: int| 0 <= d < self.tables.users@.len() implies uses_sorted(#[trigger] self.tables.users@[d]@) by {
                        if d != op.0 {
                            assert(self.tables.users@[d] == before[d]);
                        }
                    }
                }
            }
            slot = slot + 1;
        }
        if was_last {
            let ri = region.0 as usize;
            let mut new_succs: Vec<RegionId> = Vec::new();
            if ri < self.regions.len() {
                let len = self.regions[ri].cells.len();
                if len > 0 {
                    let last = self.regions[ri].cells[len - 1];
                    match self.cell(last) {
                        Some(c) => {
                            new_succs = crate::usetables::kind_succs(&c.kind);
                        },
                        None => {},
                    }
                }
            }
            proof {
                let cs = if (region.0 as int) < o.regions@.len() { o.regions@[region.0 as int].cells@ } else { Seq::empty() };
                if cs.len() > 0 {
                    assert(cs.last() == cs[cs.len() - 1]);
                }
            }
            self.tables.set_succs(region, new_succs);
        }
    }

    /// Remove a cell: slab hole, region-list removal, and table repair.
    /// Returns the removed cell, or None if absent (or not listed in its
    /// region, in which case nothing changes).
    pub fn remove_cell(&mut self, id: CellId) -> (r: Option<Cell>)
        requires
            cell_at(*old(self), id.0 as int) is Some ==> (cell_at(*old(self), id.0 as int)->0.region.0 as int) < old(self).regions@.len(),
            cell_at(*old(self), id.0 as int) is Some ==> cell_at(*old(self), id.0 as int)->0.operands.len() <= u32::MAX,
        ensures
            ({
                let c = cell_at(*old(self), id.0 as int);
                if c is Some && old(self).regions@[c->0.region.0 as int].cells@.contains(id) {
                    let ri = c->0.region.0 as int;
                    let cs = old(self).regions@[ri].cells@;
                    &&& r is Some && r->0@ == c->0
                    &&& final(self).slab@ == old(self).slab@.update(id.0 as int, None)
                    &&& final(self).regions@.len() == old(self).regions@.len()
                    &&& forall|i: int| 0 <= i < old(self).regions@.len() && i != ri ==> #[trigger] final(self).regions@[i] == old(self).regions@[i]
                    &&& final(self).regions@[ri].name == old(self).regions@[ri].name
                    &&& exists|p: int| 0 <= p < cs.len() && cs[p] == id && (forall|q: int| 0 <= q < p ==> cs[q] != id)
                        && final(self).regions@[ri].cells@ == cs.remove(p)
                } else {
                    &&& r is None
                    &&& final(self).slab == old(self).slab
                    &&& final(self).regions == old(self).regions
                    &&& final(self).tables == old(self).tables
                }
            }),
            old(self).wf() ==> final(self).wf(),
    {
        let ghost o = *self;
        let cell = match self.cell(id) {
            Some(c) => c.copy(),
            None => return None,
        };
        let ri = cell.region.0 as usize;
        let n = self.regions[ri].cells.len();
        let mut pos: usize = 0;
        while pos < n && self.regions[ri].cells[pos].0 != id.0
            invariant
                n == self.regions@[ri as int].cells@.len(),
                pos <= n,
                ri < self.regions@.len(),
                forall|q: int| 0 <= q < pos ==> self.regions@[ri as int].cells@[q] != id,
            decreases n - pos,
        {
            pos = pos + 1;
        }
        if pos == n {
            return None;
        }
        let ghost cs = self.regions@[ri as int].cells@;
        assert(cs[pos as int] == id);
        let was_last = pos + 1 == n;
        self.regions[ri].cells.remove(pos);
        self.slab.set(id.0 as usize, None);
        let ghost mid = *self;
        proof {
            assert forall|i: int| i != id.0 implies cell_at(mid, i) == cell_at(o, i) by {
                if 0 <= i < o.slab@.len() {
                    assert(mid.slab@[i] == o.slab@[i]);
                }
            }
            assert(cell_at(mid, id.0 as int) is None);
        }
        self.unregister_cell(id, &cell, was_last, cell.region);
        proof {
            let f = *self;
            assert forall|i: int| cell_at(f, i) == cell_at(mid, i) by {}
            assert(f.regions@[ri as int].cells@ == cs.remove(pos as int));
            if o.wf() {
                let ncells = f.regions@[ri as int].cells@;
                // content
                assert forall|r: int, k: int| 0 <= r < f.regions@.len() && 0 <= k < f.regions@[r].cells@.len() implies {
                    let x = (#[trigger] f.regions@[r].cells@[k]).0 as int;
                    &&& cell_at(f, x) is Some
                    &&& cell_at(f, x)->0.region.0 == r
                } by {
                    if r != ri {
                        assert(f.regions@[r] == o.regions@[r]);
                        let x = o.regions@[r].cells@[k];
                        assert(cell_at(o, x.0 as int) is Some);
                        assert(x != id);
                    } else {
                        let kk = if k < pos { k } else { k + 1 };
                        assert(ncells[k] == cs[kk]);
                        assert(cell_at(o, cs[kk].0 as int) is Some);
                        assert(cs[kk] != cs[pos as int]);
                    }
                }
                assert forall|r: int, k1: int, k2: int| 0 <= r < f.regions@.len() && 0 <= k1 < k2 < f.regions@[r].cells@.len()
                    implies #[trigger] f.regions@[r].cells@[k1] != #[trigger] f.regions@[r].cells@[k2] by {
                    if r != ri {
                        assert(f.regions@[r] == o.regions@[r]);
                    } else {
                        let a = if k1 < pos { k1 } else { k1 + 1 };
                        let b = if k2 < pos { k2 } else { k2 + 1 };
                        assert(ncells[k1] == cs[a]);
                        assert(ncells[k2] == cs[b]);
                        assert(o.regions@[r].cells@[a] != o.regions@[r].cells@[b]);
                    }
                }
                assert forall|i: int| #[trigger] cell_at(f, i) is Some implies {
                    &&& (cell_at(f, i)->0.region.0 as int) < f.regions@.len()
                    &&& f.regions@[cell_at(f, i)->0.region.0 as int].cells@.contains(CellId(i as u32))
                    &&& cell_at(f, i)->0.operands.len() <= u32::MAX
                } by {
                    assert(i != id.0);
                    assert(cell_at(o, i) is Some);
                    let r = cell_at(o, i)->0.region.0 as int;
                    assert(o.regions@[r].cells@.contains(CellId(i as u32)));
                    if r == ri {
                        let k = choose|k: int| 0 <= k < cs.len() && #[trigger] cs[k] == CellId(i as u32);
                        assert(k != pos);
                        if k < pos {
                            assert(ncells[k] == cs[k]);
                        } else {
                            assert(ncells[k - 1] == cs[k]);
                        }
                    } else {
                        assert(f.regions@[r] == o.regions@[r]);
                    }
                }
                // users
                assert forall|d: int, u: (CellId, u32)| 0 <= d < f.tables.users@.len() implies
                    (#[trigger] f.tables.users@[d]@.contains(u) <==> is_use_of(f, d, u)) by {
                    if u.0 != id {
                        assert(cell_at(f, u.0.0 as int) == cell_at(o, u.0.0 as int));
                    }
                }
                // successors
                assert forall|r: int| 0 <= r < f.regions@.len() implies (#[trigger] f.tables.succs@[r])@ == region_succs(f, r) by {
                    if r != ri {
                        assert(f.regions@[r] == o.regions@[r]);
                        let xs = o.regions@[r].cells@;
                        if xs.len() > 0 {
                            assert(xs.last() == xs[xs.len() - 1]);
                            assert(cell_at(o, xs.last().0 as int) is Some);
                            assert(cell_at(o, xs.last().0 as int)->0.region.0 == r);
                            assert(xs.last() != id);
                        }
                        assert(region_succs(f, r) == region_succs(o, r));
                        assert(f.tables.succs@[r] == o.tables.succs@[r]);
                    } else if was_last {
                        if ncells.len() > 0 {
                            assert(ncells.last() == ncells[ncells.len() - 1]);
                            assert(ncells[ncells.len() - 1] == cs[ncells.len() - 1]);
                            assert(cell_at(o, ncells.last().0 as int) is Some);
                            assert(ncells.last() != id);
                        }
                    } else {
                        assert(ncells.last() == ncells[ncells.len() - 1]);
                        assert(ncells[ncells.len() - 1] == cs[cs.len() - 1]);
                        assert(cs.last() == cs[cs.len() - 1]);
                        assert(cell_at(o, cs.last().0 as int) is Some);
                        assert(cs.last() != id);
                        assert(region_succs(f, r) == region_succs(o, r));
                    }
                }
                assert forall|r: int| f.regions@.len() <= r < f.tables.succs@.len() implies (#[trigger] f.tables.succs@[r])@.len() == 0 by {
                    if r < o.tables.succs@.len() {
                        assert(f.tables.succs@[r] == o.tables.succs@[r]);
                    }
                }
            }
        }
        Some(cell)
    }

    /// Rewire one operand slot: `user.slot` now reads `to`. Returns the
    /// old operand (None when user or slot is absent).
    pub fn retarget(&mut self, user: CellId, slot: u32, to: CellId) -> (r: Option<CellId>)
        ensures
            ({
                let c = cell_at(*old(self), user.0 as int);
                if c is Some && (slot as int) < c->0.operands.len() {
                    let from = c->0.operands[slot as int];
                    &&& r == Some(from)
                    &&& final(self).regions == old(self).regions
                    &&& final(self).slab@.len() == old(self).slab@.len()
                    &&& forall|i: int| i != user.0 ==> cell_at(*final(self), i) == cell_at(*old(self), i)
                    &&& cell_at(*final(self), user.0 as int) == Some(CellV {
                        operands: c->0.operands.update(slot as int, to),
                        ..c->0
                    })
                } else {
                    &&& r is None
                    &&& *final(self) == *old(self)
                }
            }),
            old(self).wf() ==> final(self).wf(),
    {
        let ghost o = *self;
        let u = user.0 as usize;
        let from = match self.cell(user) {
            Some(c) => {
                if (slot as usize) < c.operands.len() {
                    c.operands[slot as usize]
                } else {
                    return None;
                }
            },
            None => return None,
        };
        if from.0 == to.0 {
            proof {
                assert(from == to);
                let c = cell_at(o, user.0 as int)->0;
                assert(c.operands.update(slot as int, to) =~= c.operands);
            }
            return Some(from);
        }
        let mut tmp: Option<Cell> = None;
        self.slab.set_and_swap(u, &mut tmp);
        let mut c = match tmp {
            Some(c) => c,
            None => {
                assert(false);
                return None;
            },
        };
        c.operands.set(slot as usize, to);
        self.slab.set(u, Some(c));
        let ghost mid = *self;
        proof {
            assert forall|i: int| i != user.0 implies cell_at(mid, i) == cell_at(o, i) by {
                if 0 <= i < o.slab@.len() {
                    assert(mid.slab@[i] == o.slab@[i]);
                }
            }
            let oc = cell_at(o, user.0 as int)->0;
            assert(cell_at(mid, user.0 as int) == Some(CellV { operands: oc.operands.update(slot as int, to), ..oc }));
        }
        let ghost before = self.tables.users@;
        proof {
            if o.wf() {
                if (from.0 as int) < before.len() {
                    crate::usetables::lemma_uses_remove(before[from.0 as int]@, (user, slot));
                }
                if (to.0 as int) < before.len() {
                    if before[to.0 as int]@.contains((user, slot)) {
                        assert(is_use_of(o, to.0 as int, (user, slot)));
                    }
                    crate::usetables::lemma_uses_insert(before[to.0 as int]@, (user, slot));
                }
            }
        }
        self.tables.move_use(from, to, user, slot);
        proof {
            let f = *self;
            if o.wf() {
                let oc = cell_at(o, user.0 as int)->0;
                assert forall|d: int, x: (CellId, u32)| 0 <= d < f.tables.users@.len() implies
                    (#[trigger] f.tables.users@[d]@.contains(x) <==> is_use_of(f, d, x)) by {
                    if x.0 != user {
                        assert(cell_at(f, x.0.0 as int) == cell_at(o, x.0.0 as int));
                    }
                    if d != from.0 && d != to.0 {
                        assert(f.tables.users@[d] == before[d]);
                    }
                }
                assert forall|d: int| 0 <= d < f.tables.users@.len() implies uses_sorted(#[trigger] f.tables.users@[d]@) by {
                    if d != from.0 && d != to.0 {
                        assert(f.tables.users@[d] == before[d]);
                    }
                }
                assert forall|r: int, k: int| 0 <= r < f.regions@.len() && 0 <= k < f.regions@[r].cells@.len() implies {
                    let x = (#[trigger] f.regions@[r].cells@[k]).0 as int;
                    &&& cell_at(f, x) is Some
                    &&& cell_at(f, x)->0.region.0 == r
                } by {
                    let x = f.regions@[r].cells@[k].0 as int;
                    assert(cell_at(o, x) is Some);
                }
                assert forall|i: int| #[trigger] cell_at(f, i) is Some implies {
                    &&& (cell_at(f, i)->0.region.0 as int) < f.regions@.len()
                    &&& f.regions@[cell_at(f, i)->0.region.0 as int].cells@.contains(CellId(i as u32))
                    &&& cell_at(f, i)->0.operands.len() <= u32::MAX
                } by {
                    assert(cell_at(o, i) is Some);
                }
                assert forall|r: int| 0 <= r < f.regions@.len() implies (#[trigger] f.tables.succs@[r])@ == region_succs(f, r) by {
                    let xs = o.regions@[r].cells@;
                    if xs.len() > 0 {
                        let l = xs.last().0 as int;
                        assert(xs.last() == xs[xs.len() - 1]);
                        assert(cell_at(o, l) is Some);
                        assert(cell_at(f, l)->0.kind == cell_at(o, l)->0.kind);
                    }
                }
            }
        }
        Some(from)
    }

    /// Swap a cell's kind. When the cell is its region's last cell, the
    /// succ/pred tables are repaired. Operand wires are untouched.
    /// Returns the old kind.
    pub fn set_kind(&mut self, id: CellId, kind: CellKind) -> (r: Option<CellKind>)
        ensures
            ({
                let c = cell_at(*old(self), id.0 as int);
                if c is Some {
                    &&& r is Some && r->0@ == c->0.kind
                    &&& final(self).regions == old(self).regions
                    &&& final(self).slab@.len() == old(self).slab@.len()
                    &&& forall|i: int| i != id.0 ==> cell_at(*final(self), i) == cell_at(*old(self), i)
                    &&& cell_at(*final(self), id.0 as int) == Some(CellV { kind: kind@, ..c->0 })
                } else {
                    &&& r is None
                    &&& final(self).slab@ == old(self).slab@
                    &&& final(self).regions == old(self).regions
                    &&& final(self).tables == old(self).tables
                }
            }),
            old(self).wf() ==> final(self).wf(),
    {
        let ghost o = *self;
        let ghost kv = kind@;
        let u = id.0 as usize;
        if u >= self.slab.len() {
            return None;
        }
        let mut tmp: Option<Cell> = None;
        self.slab.set_and_swap(u, &mut tmp);
        let c = match tmp {
            Some(c) => c,
            None => {
                self.slab.set(u, None);
                proof {
                    assert(self.slab@ =~= o.slab@);
                    lemma_same_content_wf(o, *self);
                }
                return None;
            },
        };
        let Cell { region, kind: old_kind, operands } = c;
        self.slab.set(u, Some(Cell { region, kind, operands }));
        let ghost mid = *self;
        proof {
            assert forall|i: int| i != id.0 implies cell_at(mid, i) == cell_at(o, i) by {
                if 0 <= i < o.slab@.len() {
                    assert(mid.slab@[i] == o.slab@[i]);
                }
            }
        }
        let ri = region.0 as usize;
        let mut is_last = false;
        if ri < self.regions.len() {
            let len = self.regions[ri].cells.len();
            if len > 0 && self.regions[ri].cells[len - 1].0 == id.0 {
                is_last = true;
            }
        }
        if is_last {
            let succs = match self.cell(id) {
                Some(c) => crate::usetables::kind_succs(&c.kind),
                None => Vec::new(),
            };
            self.tables.set_succs(region, succs);
        }
        proof {
            let f = *self;
            if o.wf() {
                assert forall|d: int, x: (CellId, u32)| 0 <= d < f.tables.users@.len() implies
                    (#[trigger] f.tables.users@[d]@.contains(x) <==> is_use_of(f, d, x)) by {
                    assert(is_use_of(f, d, x) == is_use_of(o, d, x));
                }
                assert forall|r: int, k: int| 0 <= r < f.regions@.len() && 0 <= k < f.regions@[r].cells@.len() implies {
                    let x = (#[trigger] f.regions@[r].cells@[k]).0 as int;
                    &&& cell_at(f, x) is Some
                    &&& cell_at(f, x)->0.region.0 == r
                } by {
                    let x = f.regions@[r].cells@[k].0 as int;
                    assert(cell_at(o, x) is Some);
                }
                assert forall|i: int| #[trigger] cell_at(f, i) is Some implies {
                    &&& (cell_at(f, i)->0.region.0 as int) < f.regions@.len()
                    &&& f.regions@[cell_at(f, i)->0.region.0 as int].cells@.contains(CellId(i as u32))
                    &&& cell_at(f, i)->0.operands.len() <= u32::MAX
                } by {
                    assert(cell_at(o, i) is Some);
                }
                assert forall|r: int| 0 <= r < f.regions@.len() implies (#[trigger] f.tables.succs@[r])@ == region_succs(f, r) by {
                    let xs = o.regions@[r].cells@;
                    if xs.len() > 0 {
                        let l = xs.last().0 as int;
                        assert(xs.last() == xs[xs.len() - 1]);
                        assert(cell_at(o, l) is Some);
                        if l == id.0 {
                            assert(cell_at(o, l)->0.region.0 == r);
                            assert(r == ri);
                        } else if r == ri && is_last {
                            assert(false);
                        }
                    }
                    if r != ri || !is_last {
                        assert(f.tables.succs@[r] == o.tables.succs@[r]);
                    }
                }
                assert forall|r: int| f.regions@.len() <= r < f.tables.succs@.len() implies (#[trigger] f.tables.succs@[r])@.len() == 0 by {
                    if r < o.tables.succs@.len() {
                        assert(f.tables.succs@[r] == o.tables.succs@[r]);
                    }
                }
                assert(content_wf(f));
                assert(f.tables.links_agree());
                assert(tables_match(f, f.tables));
            }
        }
        Some(old_kind)
    }

    /// Replace a cell's whole operand list (bulk rewire).
    pub fn set_operands(&mut self, id: CellId, ops: &[CellId]) -> (r: Option<()>)
        requires
            ops@.len() <= u32::MAX,
            cell_at(*old(self), id.0 as int) is Some ==> cell_at(*old(self), id.0 as int)->0.operands.len() <= u32::MAX,
        ensures
            ({
                let c = cell_at(*old(self), id.0 as int);
                if c is Some {
                    &&& r is Some
                    &&& final(self).regions == old(self).regions
                    &&& final(self).slab@.len() == old(self).slab@.len()
                    &&& forall|i: int| i != id.0 ==> cell_at(*final(self), i) == cell_at(*old(self), i)
                    &&& cell_at(*final(self), id.0 as int) == Some(CellV { operands: ops@, ..c->0 })
                } else {
                    &&& r is None
                    &&& final(self).slab@ == old(self).slab@
                    &&& final(self).regions == old(self).regions
                    &&& final(self).tables == old(self).tables
                }
            }),
            old(self).wf() ==> final(self).wf(),
    {
        let ghost o = *self;
        let u = id.0 as usize;
        if u >= self.slab.len() {
            return None;
        }
        let mut tmp: Option<Cell> = None;
        self.slab.set_and_swap(u, &mut tmp);
        let c = match tmp {
            Some(c) => c,
            None => {
                self.slab.set(u, None);
                proof {
                    assert(self.slab@ =~= o.slab@);
                    lemma_same_content_wf(o, *self);
                }
                return None;
            },
        };
        let Cell { region, kind, operands: old_ops } = c;
        let mut new_ops: Vec<CellId> = Vec::new();
        let mut k: usize = 0;
        while k < ops.len()
            invariant
                k <= ops@.len(),
                new_ops@ == ops@.take(k as int),
            decreases ops@.len() - k,
        {
            new_ops.push(ops[k]);
            k = k + 1;
            assert(new_ops@ =~= ops@.take(k as int));
        }
        assert(ops@.take(ops@.len() as int) =~= ops@);
        self.slab.set(u, Some(Cell { region, kind, operands: new_ops }));
        let ghost mid = *self;
        proof {
            assert forall|i: int| i != id.0 implies cell_at(mid, i) == cell_at(o, i) by {
                if 0 <= i < o.slab@.len() {
                    assert(mid.slab@[i] == o.slab@[i]);
                }
            }
        }
        // drop the old use edges
        let n = old_ops.len();
        let mut slot: usize = 0;
        while slot < n
            invariant
                n == old_ops@.len(),
                n <= u32::MAX,
                old_ops@ == cell_at(o, id.0 as int)->0.operands,
                slot <= n,
                self.slab == mid.slab,
                self.regions == o.regions,
                self.tables.succs == o.tables.succs,
                self.tables.preds == o.tables.preds,
                self.tables.users@.len() == o.tables.users@.len(),
                o.wf() ==> {
                    &&& forall|d: int| 0 <= d < self.tables.users@.len() ==> uses_sorted(#[trigger] self.tables.users@[d]@)
                    &&& forall|d: int, x: (CellId, u32)| 0 <= d < self.tables.users@.len() ==>
                        (#[trigger] self.tables.users@[d]@.contains(x) <==> (o.tables.users@[d]@.contains(x)
                        && !(x.0 == id && (x.1 as int) < slot && old_ops@[x.1 as int].0 == d)))
                },
            decreases n - slot,
        {
            let op = old_ops[slot];
            let ghost before = self.tables.users@;
            proof {
                if o.wf() && (op.0 as int) < before.len() {
                    crate::usetables::lemma_uses_remove(before[op.0 as int]@, (id, slot as u32));
                }
            }
            self.tables.remove_use(op, id, slot as u32);
            proof {
                if o.wf() {
                    assert forall|d: int, x: (CellId, u32)| 0 <= d < self.tables.users@.len() implies
                        (#[trigger] self.tables.users@[d]@.contains(x) <==> (o.tables.users@[d]@.contains(x)
                        && !(x.0 == id && (x.1 as int) < slot + 1 && old_ops@[x.1 as int].0 == d))) by {
                        if d != op.0 {
                            assert(self.tables.users@[d] == before[d]);
                        }
                    }
                    assert forall|d: int| 0 <= d < self.tables.users@.len() implies uses_sorted(#[trigger] self.tables.users@[d]@) by {
                        if d != op.0 {
                            assert(self.tables.users@[d] == before[d]);
                        }
                    }
                }
            }
            slot = slot + 1;
        }
        let ghost cleared = self.tables.users@;
        // add the new ones
        let m = ops.len();
        let mut slot2: usize = 0;
        while slot2 < m
            invariant
                m == ops@.len(),
                m <= u32::MAX,
                slot2 <= m,
                self.slab == mid.slab,
                self.regions == o.regions,
                self.tables.succs == o.tables.succs,
                self.tables.preds == o.tables.preds,
                self.tables.users@.len() == cleared.len(),
                o.wf() ==> {
                    &&& forall|d: int| 0 <= d < self.tables.users@.len() ==> uses_sorted(#[trigger] self.tables.users@[d]@)
                    &&& forall|d: int, x: (CellId, u32)| 0 <= d < self.tables.users@.len() ==>
                        (#[trigger] self.tables.users@[d]@.contains(x) <==> (cleared[d]@.contains(x)
                        || (x.0 == id && (x.1 as int) < slot2 && ops@[x.1 as int].0 == d)))
                    &&& forall|d: int, s: u32| 0 <= d < self.tables.users@.len() && (s as int) >= slot2 ==> !(#[trigger] self.tables.users@[d]@.contains((id, s)))
                },
            decreases m - slot2,
        {
            let op = ops[slot2];
            let ghost before = self.tables.users@;
            proof {
                if o.wf() && (op.0 as int) < before.len() {
                    crate::usetables::lemma_uses_insert(before[op.0 as int]@, (id, slot2 as u32));
                }
            }
            self.tables.add_use(op, id, slot2 as u32);
            proof {
                if (op.0 as int) < before.len() {
                    crate::usetables::lemma_uses_insert_members(before[op.0 as int]@, (id, slot2 as u32));
                }
                if o.wf() {
                    assert forall|d: int, x: (CellId, u32)| 0 <= d < self.tables.users@.len() implies
                        (#[trigger] self.tables.users@[d]@.contains(x) <==> (cleared[d]@.contains(x)
                        || (x.0 == id && (x.1 as int) < slot2 + 1 && ops@[x.1 as int].0 == d))) by {
                        if d != op.0 {
                            assert(self.tables.users@[d] == before[d]);
                        }
                    }
                    assert forall|d: int| 0 <= d < self.tables.users@.len() implies uses_sorted(#[trigger] self.tables.users@[d]@) by {
                        if d != op.0 {
                            assert(self.tables.users@[d] == before[d]);
                        }
                    }
                    assert forall|d: int, s: u32| 0 <= d < self.tables.users@.len() && (s as int) >= slot2 + 1 implies !(#[trigger] self.tables.users@[d]@.contains((id, s))) by {
                        if d != op.0 {
                            assert(self.tables.users@[d] == before[d]);
                        }
                    }
                }
            }
            slot2 = slot2 + 1;
        }
        proof {
            let f = *self;
            assert forall|i: int| cell_at(f, i) == cell_at(mid, i) by {}
            if o.wf() {
                assert forall|d: int, s: u32| 0 <= d < cleared.len() implies !(#[trigger] cleared[d]@.contains((id, s))) by {
                    if cleared[d]@.contains((id, s)) {
                        assert(o.tables.users@[d]@.contains((id, s)));
                        assert(is_use_of(o, d, (id, s)));
                    }
                }
                assert forall|d: int, x: (CellId, u32)| 0 <= d < f.tables.users@.len() implies
                    (#[trigger] f.tables.users@[d]@.contains(x) <==> is_use_of(f, d, x)) by {
                    if x.0 != id {
                        assert(cell_at(f, x.0.0 as int) == cell_at(o, x.0.0 as int));
                        assert(cleared[d]@.contains(x) == o.tables.users@[d]@.contains(x));
                    } else {
                        if cleared[d]@.contains(x) {
                            assert(o.tables.users@[d]@.contains(x));
                        }
                    }
                }
                assert forall|r: int, k: int| 0 <= r < f.regions@.len() && 0 <= k < f.regions@[r].cells@.len() implies {
                    let x = (#[trigger] f.regions@[r].cells@[k]).0 as int;
                    &&& cell_at(f, x) is Some
                    &&& cell_at(f, x)->0.region.0 == r
                } by {
                    let x = f.regions@[r].cells@[k].0 as int;
                    assert(cell_at(o, x) is Some);
                }
                assert forall|i: int| #[trigger] cell_at(f, i) is Some implies {
                    &&& (cell_at(f, i)->0.region.0 as int) < f.regions@.len()
                    &&& f.regions@[cell_at(f, i)->0.region.0 as int].cells@.contains(CellId(i as u32))
                    &&& cell_at(f, i)->0.operands.len() <= u32::MAX
                } by {
                    assert(cell_at(o, i) is Some);
                }
                assert forall|r: int| 0 <= r < f.regions@.len() implies (#[trigger] f.tables.succs@[r])@ == region_succs(f, r) by {
                    let xs = o.regions@[r].cells@;
                    if xs.len() > 0 {
                        let l = xs.last().0 as int;
                        assert(xs.last() == xs[xs.len() - 1]);
                        assert(cell_at(o, l) is Some);
                        assert(cell_at(f, l)->0.kind == cell_at(o, l)->0.kind);
                    }
                    assert(region_succs(f, r) == region_succs(o, r));
                }
            }
        }
        Some(())
    }

    /// Index of a cell within its region's cell order.
    pub fn index_in_region(&self, id: CellId) -> (r: Option<usize>)
        ensures
            ({
                let c = cell_at(*self, id.0 as int);
                if c is Some && (c->0.region.0 as int) < self.regions@.len() {
                    let cs = self.regions@[c->0.region.0 as int].cells@;
                    match r {
                        Some(p) => (p as int) < cs.len() && cs[p as int] == id && forall|q: int| 0 <= q < p ==> cs[q] != id,
                        None => !cs.contains(id),
                    }
                } else {
                    r is None
                }
            }),
    {
        let c = match self.cell(id) {
            Some(c) => c,
            None => return None,
        };
        let ri = c.region.0 as usize;
        if ri >= self.regions.len() {
            return None;
        }
        let region = &self.regions[ri];
        let n = region.cells.len();
        let mut p: usize = 0;
        while p < n
            invariant
                n == region.cells@.len(),
                p <= n,
                forall|q: int| 0 <= q < p ==> region.cells@[q] != id,
                cell_at(*self, id.0 as int) == Some(c@),
                ri == c.region.0,
                ri < self.regions@.len(),
                *region == self.regions@[ri as int],
            decreases n - p,
        {
            if region.cells[p].0 == id.0 {
                proof {
                    assert(region.cells@[p as int] == id);
                }
                return Some(p);
            }
            p = p + 1;
        }
        None
    }

    /// Every use edge in the fabric, in user-ascending then slot order.
    pub fn wires(&self) -> (w: Vec<Wire>)
        requires
            self.slab@.len() <= u32::MAX,
            forall|i: int| #[trigger] cell_at(*self, i) is Some ==> cell_at(*self, i)->0.operands.len() <= u32::MAX,
        ensures
            w@ == wires_from(*self, 0),
    {
        let n = self.slab.len();
        let mut out: Vec<Wire> = Vec::new();
        let mut i: usize = 0;
        while i < n
            invariant
                n == self.slab@.len(),
                n <= u32::MAX,
                i <= n,
                forall|j: int| #[trigger] cell_at(*self, j) is Some ==> cell_at(*self, j)->0.operands.len() <= u32::MAX,
                out@ + wires_from(*self, i as int) == wires_from(*self, 0),
            decreases n - i,
        {
            let ghost before = out@;
            match &self.slab[i] {
                Some(c) => {
                    let m = c.operands.len();
                    let mut k: usize = 0;
                    while k < m
                        invariant
                            m == c.operands@.len(),
                            m <= u32::MAX,
                            k <= m,
                            i < n,
                            n <= u32::MAX,
                            out@ == before + wires_of_cell(i as int, c.operands@).take(k as int),
                        decreases m - k,
                    {
                        out.push(Wire { from: c.operands[k], to: CellId(i as u32), slot: k as u32 });
                        k = k + 1;
                        assert(out@ =~= before + wires_of_cell(i as int, c.operands@).take(k as int));
                    }
                    assert(wires_of_cell(i as int, c.operands@).take(m as int) =~= wires_of_cell(i as int, c.operands@));
                    assert(cell_at(*self, i as int) == Some(c@));
                },
                None => {},
            }
            proof {
                assert(wires_from(*self, i as int) == wires_here(*self, i as int) + wires_from(*self, i + 1));
                assert(out@ + wires_from(*self, i + 1) =~= before + wires_from(*self, i as int));
            }
            i = i + 1;
        }
        assert(out@ + wires_from(*self, n as int) =~= out@);
        out
    }

    /// Place a cell under an explicit id (used by the parser). Pads the
    /// slab with holes if the id skips ahead. Errors on double assignment
    /// (nothing changes) and on a nonexistent region (the slab keeps the
    /// cell, which no region lists).
    pub fn place_cell(&mut self, id: CellId, cell: Cell) -> (res: Result<(), String>)
        requires
            cell.operands@.len() <= u32::MAX,
        ensures
            ({
                let i = id.0 as int;
                let n = old(self).slab@.len();
                let grown = if i < n {
                    old(self).slab@.update(i, Some(cell))
                } else {
                    old(self).slab@ + Seq::new((i - n) as nat, |k: int| None::<Cell>) + seq![Some(cell)]
                };
                if i < n && old(self).slab@[i] is Some {
                    &&& res == Err::<(), String>(res->Err_0)
                    &&& res->Err_0@ == msg_assigned_twice(id)
                    &&& final(self).slab@ == old(self).slab@
                    &&& final(self).regions == old(self).regions
                    &&& final(self).tables == old(self).tables
                } else if (cell.region.0 as int) >= old(self).regions@.len() {
                    &&& res is Err
                    &&& res->Err_0@ == msg_no_region(id, cell.region)
                    &&& final(self).slab@ == grown
                    &&& final(self).regions == old(self).regions
                } else {
                    let ri = cell.region.0 as int;
                    &&& res is Ok
                    &&& final(self).slab@ == grown
                    &&& final(self).regions@.len() == old(self).regions@.len()
                    &&& forall|r: int| 0 <= r < old(self).regions@.len() && r != ri ==> #[trigger] final(self).regions@[r] == old(self).regions@[r]
                    &&& final(self).regions@[ri].name == old(self).regions@[ri].name
                    &&& final(self).regions@[ri].cells@ == old(self).regions@[ri].cells@.push(id)
                    &&& old(self).wf() && id.0 < u32::MAX && (i >= n ==> !refers_into(*old(self), n as int, i + 1)) ==> final(self).wf()
                }
            }),
    {
        let ghost o = *self;
        let ghost cv = cell@;
        let ghost c0 = cell;
        let region = cell.region;
        let idx = id.0 as usize;
        if idx < self.slab.len() {
            if self.slab[idx].is_some() {
                let mut m = String::new();
                proof { reveal_strlit("cell "); reveal_strlit(" assigned twice"); }
                push_str(&mut m, "cell ");
                push_str(&mut m, id.to_text().as_str());
                push_str(&mut m, " assigned twice");
                assert(m@ =~= msg_assigned_twice(id));
                return Err(m);
            }
            self.slab.set(idx, Some(cell));
        } else {
            let n0 = self.slab.len();
            while self.slab.len() < idx
                invariant
                    n0 == o.slab@.len(),
                    n0 <= self.slab@.len() <= idx,
                    self.slab@ == o.slab@ + Seq::new((self.slab@.len() - n0) as nat, |k: int| None::<Cell>),
                    self.regions == o.regions,
                    self.tables == o.tables,
                decreases idx - self.slab@.len(),
            {
                self.slab.push(None);
                assert(self.slab@ =~= o.slab@ + Seq::new((self.slab@.len() - n0) as nat, |k: int| None::<Cell>));
            }
            self.slab.push(Some(cell));
            assert(self.slab@ =~= o.slab@ + Seq::new((idx - n0) as nat, |k: int| None::<Cell>) + seq![Some(c0)]);
        }
        let ghost grown = self.slab@;
        let ri = region.0 as usize;
        if ri >= self.regions.len() {
            let mut m = String::new();
            proof { reveal_strlit("cell "); reveal_strlit(" placed in nonexistent region "); }
            push_str(&mut m, "cell ");
            push_str(&mut m, id.to_text().as_str());
            push_str(&mut m, " placed in nonexistent region ");
            push_str(&mut m, region.to_text().as_str());
            assert(m@ =~= msg_no_region(id, region));
            return Err(m);
        }
        let ghost before_push = self.regions@;
        self.regions[ri].cells.push(id);
        assert(self.regions@[ri as int].cells@ == before_push[ri as int].cells@.push(id));
        let at = self.regions[ri].cells.len() - 1;
        let ghost mid = *self;
        proof {
            assert(before_push == o.regions@);
            assert(mid.regions@[ri as int].cells@ == o.regions@[ri as int].cells@.push(id));
            assert forall|i: int| i != id.0 implies cell_at(mid, i) == cell_at(o, i) by {
                if 0 <= i < o.slab@.len() {
                    assert(mid.slab@[i] == o.slab@[i]);
                }
            }
            assert(cell_at(mid, id.0 as int) == Some(cv));
        }
        self.register_cell(id, at);
        proof {
            let f = *self;
            let n = o.slab@.len();
            let i = id.0 as int;
            assert forall|j: int| cell_at(f, j) == cell_at(mid, j) by {}
            if o.wf() && id.0 < u32::MAX && (i >= n ==> !refers_into(o, n as int, i + 1)) {
                let ocells = o.regions@[ri as int].cells@;
                let ncells = f.regions@[ri as int].cells@;
                assert(ncells == ocells.push(id));
                assert(cell_at(o, i) is None);
                assert forall|r: int, k: int| 0 <= r < o.regions@.len() && 0 <= k < o.regions@[r].cells@.len()
                    implies (#[trigger] o.regions@[r].cells@[k]) != id by {
                    assert(cell_at(o, o.regions@[r].cells@[k].0 as int) is Some);
                }
                assert forall|r: int, k: int| 0 <= r < f.regions@.len() && 0 <= k < f.regions@[r].cells@.len() implies {
                    let x = (#[trigger] f.regions@[r].cells@[k]).0 as int;
                    &&& cell_at(f, x) is Some
                    &&& cell_at(f, x)->0.region.0 == r
                } by {
                    if r != ri {
                        assert(f.regions@[r] == o.regions@[r]);
                        assert(cell_at(o, o.regions@[r].cells@[k].0 as int) is Some);
                    } else if k < ocells.len() {
                        assert(ncells[k] == ocells[k]);
                        assert(cell_at(o, ocells[k].0 as int) is Some);
                    }
                }
                assert forall|r: int, k1: int, k2: int| 0 <= r < f.regions@.len() && 0 <= k1 < k2 < f.regions@[r].cells@.len()
                    implies #[trigger] f.regions@[r].cells@[k1] != #[trigger] f.regions@[r].cells@[k2] by {
                    if r != ri {
                        assert(f.regions@[r] == o.regions@[r]);
                    } else if k2 < ocells.len() {
                        assert(o.regions@[r].cells@[k1] != o.regions@[r].cells@[k2]);
                    } else {
                        assert(ncells[k1] == ocells[k1]);
                        assert(o.regions@[r].cells@[k1] != id);
                    }
                }
                assert forall|j: int| #[trigger] cell_at(f, j) is Some implies {
                    &&& (cell_at(f, j)->0.region.0 as int) < f.regions@.len()
                    &&& f.regions@[cell_at(f, j)->0.region.0 as int].cells@.contains(CellId(j as u32))
                    &&& cell_at(f, j)->0.operands.len() <= u32::MAX
                } by {
                    if j == i {
                        assert(ncells[ocells.len() as int] == id);
                        assert(CellId(j as u32) == id);
                    } else {
                        assert(cell_at(o, j) is Some);
                        let r = cell_at(o, j)->0.region.0 as int;
                        assert(o.regions@[r].cells@.contains(CellId(j as u32)));
                        if r == ri {
                            let k = choose|k: int| 0 <= k < ocells.len() && #[trigger] ocells[k] == CellId(j as u32);
                            assert(ncells[k] == ocells[k]);
                        } else {
                            assert(f.regions@[r] == o.regions@[r]);
                        }
                    }
                }
                assert forall|d: int, u: (CellId, u32)| 0 <= d < f.tables.users@.len() implies
                    (#[trigger] f.tables.users@[d]@.contains(u) <==> is_use_of(f, d, u)) by {
                    if u.0 == id {
                        if d < o.tables.users@.len() && o.tables.users@[d]@.contains(u) {
                            assert(is_use_of(o, d, u));
                        }
                    } else {
                        assert(cell_at(f, u.0.0 as int) == cell_at(o, u.0.0 as int));
                        if d >= n {
                            if is_use_of(o, d, u) {
                                assert(refers_into(o, n as int, i + 1)) by {
                                    assert(cell_at(o, u.0.0 as int)->0.operands[u.1 as int].0 == d);
                                }
                            }
                        }
                    }
                }
                assert forall|d: int| 0 <= d < o.tables.users@.len() implies uses_sorted(#[trigger] o.tables.users@[d]@)
                    && forall|s: u32| !o.tables.users@[d]@.contains((id, s)) by {
                    assert forall|s: u32| !o.tables.users@[d]@.contains((id, s)) by {
                        if o.tables.users@[d]@.contains((id, s)) {
                            assert(is_use_of(o, d, (id, s)));
                        }
                    }
                }
                assert forall|r: int| 0 <= r < f.regions@.len() implies (#[trigger] f.tables.succs@[r])@ == region_succs(f, r) by {
                    if r != ri {
                        assert(f.regions@[r] == o.regions@[r]);
                        let cs = o.regions@[r].cells@;
                        if cs.len() > 0 {
                            assert(cs.last() == cs[cs.len() - 1]);
                            assert(cell_at(o, cs.last().0 as int) is Some);
                            assert(cs.last() != id);
                        }
                        assert(region_succs(f, r) == region_succs(o, r));
                        assert(f.tables.succs@[r] == o.tables.succs@[r]);
                    } else {
                        assert(ncells.last() == id);
                    }
                }
                assert forall|r: int| f.regions@.len() <= r < f.tables.succs@.len() implies (#[trigger] f.tables.succs@[r])@.len() == 0 by {
                    if r < o.tables.succs@.len() {
                        assert(f.tables.succs@[r] == o.tables.succs@[r]);
                    }
                }
            }
        }
        proof {
            let f = *self;
            let n = o.slab@.len();
            let i = id.0 as int;
            if i < n {
                assert(f.slab@ == o.slab@.update(i, Some(c0)));
            } else {
                assert(f.slab@ == o.slab@ + Seq::new((i - n) as nat, |k: int| None::<Cell>) + seq![Some(c0)]);
            }
            assert(f.regions@[ri as int].cells@ == o.regions@[ri as int].cells@.push(id));
            assert(f.regions@[ri as int].name == o.regions@[ri as int].name);
        }
        Ok(())
    }

    /// Re-derive the tables from the content.
    pub fn rebuild_tables(&mut self)
        requires
            old(self).slab@.len() <= u32::MAX,
            old(self).regions@.len() < u32::MAX,
        ensures
            final(self).slab == old(self).slab,
            final(self).regions == old(self).regions,
            content_wf(*old(self)) ==> final(self).wf(),
    {
        let t = UseTables::derive(self);
        let ghost o = *self;
        self.tables = t;
        proof {
            let f = *self;
            assert forall|i: int| cell_at(f, i) == cell_at(o, i) by {}
            if content_wf(o) {
                assert forall|d: int, x: (CellId, u32)| 0 <= d < f.tables.users@.len() implies
                    (#[trigger] f.tables.users@[d]@.contains(x) <==> is_use_of(f, d, x)) by {
                    assert(is_use_of(o, d, x) == is_use_of(f, d, x));
                }
                assert forall|r: int| 0 <= r < f.regions@.len() implies (#[trigger] f.tables.succs@[r])@ == region_succs(f, r) by {
                    assert(region_succs(f, r) == region_succs(o, r));
                }
                assert forall|r: int, k: int| 0 <= r < f.regions@.len() && 0 <= k < f.regions@[r].cells@.len() implies {
                    let x = (#[trigger] f.regions@[r].cells@[k]).0 as int;
                    &&& cell_at(f, x) is Some
                    &&& cell_at(f, x)->0.region.0 == r
                } by {
                    let x = f.regions@[r].cells@[k].0 as int;
                    assert(cell_at(o, x) is Some);
                }
                assert forall|i: int| #[trigger] cell_at(f, i) is Some implies {
                    &&& (cell_at(f, i)->0.region.0 as int) < f.regions@.len()
                    &&& f.regions@[cell_at(f, i)->0.region.0 as int].cells@.contains(CellId(i as u32))
                    &&& cell_at(f, i)->0.operands.len() <= u32::MAX
                } by {
                    assert(cell_at(o, i) is Some);
                }
            }
        }
    }

    /// The type a cell produces, if it produces a value. Phi types come
    /// from the first operand.
    pub fn ty_of(&self, id: CellId) -> (t: Option<Type>)
        requires
            cell_at(*self, id.0 as int) is Some ==> ty_walk_ends(*self, cell_at(*self, id.0 as int)->0),
        ensures
            t == match cell_at(*self, id.0 as int) {
                Some(c) => cell_ty(*self, c),
                None => None,
            },
    {
        match self.cell(id) {
            Some(c) => cell_ty_of(c, self),
            None => None,
        }
    }

    pub fn cell(&self, id: CellId) -> (c: Option<&Cell>)
        ensures
            match c {
                Some(c) => cell_at(*self, id.0 as int) == Some(c@),
                None => cell_at(*self, id.0 as int) is None,
            },
    {
        let i = id.0 as usize;
        if i < self.slab.len() {
            match &self.slab[i] {
                Some(c) => Some(c),
                None => None,
            }
        } else {
            None
        }
    }

    /// Raw access to a present cell, for edits the caller takes care of;
    /// the maintained tables are not updated.
    pub fn cell_mut(&mut self, id: CellId) -> (x: Option<&mut Cell>)
        ensures
            (0 <= id.0 < old(self).slab@.len() && old(self).slab@[id.0 as int] is Some) ==> (x matches Some(m)
                && Some(*m) == old(self).slab@[id.0 as int]
                && final(self).slab@ == old(self).slab@.update(id.0 as int, Some(*final(m)))
                && final(self).regions == old(self).regions && final(self).tables == old(self).tables),
            !(0 <= id.0 < old(self).slab@.len() && old(self).slab@[id.0 as int] is Some) ==> x is None
                && *final(self) == *old(self),
    {
        let i = id.0 as usize;
        if i < self.slab.len() && self.slab[i].is_some() {
            match &mut self.slab[i] {
                Some(c) => Some(c),
                None => None,
            }
        } else {
            None
        }
    }

    /// Raw access to a region, for edits the caller takes care of; the
    /// maintained tables are not updated.
    pub fn region_mut(&mut self, r: RegionId) -> (x: Option<&mut Region>)
        ensures
            (r.0 as int) < old(self).regions@.len() ==> (x matches Some(m) && *m == old(self).regions@[r.0 as int]
                && final(self).regions@ == old(self).regions@.update(r.0 as int, *final(m))
                && final(self).slab == old(self).slab && final(self).tables == old(self).tables),
            (r.0 as int) >= old(self).regions@.len() ==> x is None && *final(self) == *old(self),
    {
        let i = r.0 as usize;
        if i < self.regions.len() {
            Some(&mut self.regions[i])
        } else {
            None
        }
    }

    pub fn region(&self, r: RegionId) -> (x: Option<&Region>)
        ensures
            (r.0 as int) < self.regions@.len() ==> x == Some(&self.regions@[r.0 as int]),
            (r.0 as int) >= self.regions@.len() ==> x is None,
    {
        let i = r.0 as usize;
        if i < self.regions.len() {
            Some(&self.regions[i])
        } else {
            None
        }
    }

    pub fn entry(&self) -> (r: Option<RegionId>)
        ensures
            r == if self.regions@.len() == 0 { None } else { Some(RegionId(0)) },
    {
        if self.regions.len() == 0 {
            None
        } else {
            Some(RegionId(0))
        }
    }

    pub fn region_name(&self, r: RegionId) -> (s: &str)
        ensures
            (r.0 as int) < self.regions@.len() ==> s@ == self.regions@[r.0 as int].name@,
            (r.0 as int) >= self.regions@.len() ==> s@ == bad_region_text(),
    {
        let i = r.0 as usize;
        if i < self.regions.len() {
            self.regions[i].name.as_str()
        } else {
            proof { reveal_strlit("<bad-region>"); }
            "<bad-region>"
        }
    }

    /// All present cells, in id order.
    pub fn cells(&self) -> (v: Vec<CellId>)
        requires
            self.slab@.len() <= u32::MAX,
        ensures
            forall|i: int, j: int| 0 <= i < j < v@.len() ==> v@[i].0 < v@[j].0,
            forall|id: CellId| #[trigger] v@.contains(id) <==> cell_at(*self, id.0 as int) is Some,
    {
        let mut v: Vec<CellId> = Vec::new();
        let n = self.slab.len();
        let mut i: usize = 0;
        while i < n
            invariant
                n == self.slab@.len(),
                n <= u32::MAX,
                i <= n,
                forall|a: int, b: int| 0 <= a < b < v@.len() ==> v@[a].0 < v@[b].0,
                forall|k: int| 0 <= k < v@.len() ==> (#[trigger] v@[k]).0 < i,
                forall|id: CellId| #[trigger] v@.contains(id) <==> (id.0 < i && cell_at(*self, id.0 as int) is Some),
            decreases n - i,
        {
            let ghost old_v = v@;
            if self.slab[i].is_some() {
                v.push(CellId(i as u32));
                proof {
                    assert forall|id: CellId| #[trigger] v@.contains(id) <==> (id.0 < i + 1 && cell_at(*self, id.0 as int) is Some) by {
                        if v@.contains(id) {
                            let k = choose|k: int| 0 <= k < v@.len() && #[trigger] v@[k] == id;
                            if k < old_v.len() {
                                assert(old_v[k] == id);
                                assert(old_v.contains(id));
                            }
                        }
                        if id.0 < i + 1 && cell_at(*self, id.0 as int) is Some {
                            if id.0 < i {
                                assert(old_v.contains(id));
                                let k = choose|k: int| 0 <= k < old_v.len() && #[trigger] old_v[k] == id;
                                assert(v@[k] == id);
                            } else {
                                assert(v@[old_v.len() as int] == id);
                            }
                        }
                    }
                }
            } else {
                proof {
                    assert forall|id: CellId| #[trigger] v@.contains(id) <==> (id.0 < i + 1 && cell_at(*self, id.0 as int) is Some) by {
                        if v@.contains(id) {
                            let k = choose|k: int| 0 <= k < v@.len() && #[trigger] v@[k] == id;
                        }
                    }
                }
            }
            i = i + 1;
        }
        v
    }

    /// Every user of `id`, as (user, slot), from the maintained tables.
    pub fn uses_of(&self, id: CellId) -> (s: &[(CellId, u32)])
        ensures
            s@ == row_at(self.tables.users@, id.0 as int),
    {
        let i = id.0 as usize;
        if i < self.tables.users.len() {
            self.tables.users[i].as_slice()
        } else {
            let e: &[(CellId, u32)] = &[];
            assert(e@ =~= Seq::<(CellId, u32)>::empty());
            e
        }
    }

    /// Successor regions of a region, from the maintained tables.
    pub fn successors(&self, r: RegionId) -> (s: &[RegionId])
        ensures
            s@ == row_at(self.tables.succs@, r.0 as int),
    {
        let i = r.0 as usize;
        if i < self.tables.succs.len() {
            self.tables.succs[i].as_slice()
        } else {
            let e: &[RegionId] = &[];
            assert(e@ =~= Seq::<RegionId>::empty());
            e
        }
    }

    /// Predecessor regions of a region, from the maintained tables.
    pub fn predecessors(&self, r: RegionId) -> (s: &[RegionId])
        ensures
            s@ == row_at(self.tables.preds@, r.0 as int),
    {
        let i = r.0 as usize;
        if i < self.tables.preds.len() {
            self.tables.preds[i].as_slice()
        } else {
            let e: &[RegionId] = &[];
            assert(e@ =~= Seq::<RegionId>::empty());
            e
        }
    }
}

/// Two fabrics with the same slab contents, regions and tables are
/// equally well formed.
pub proof fn lemma_same_content_wf(a: Fabric, b: Fabric)
    requires
        a.slab@ == b.slab@,
        a.regions == b.regions,
        a.tables == b.tables,
    ensures
        a.wf() ==> b.wf(),
{
    assert forall|i: int| cell_at(a, i) == cell_at(b, i) by {}
    if a.wf() {
        assert forall|d: int, x: (CellId, u32)| 0 <= d < b.tables.users@.len() implies
            (#[trigger] b.tables.users@[d]@.contains(x) <==> is_use_of(b, d, x)) by {
            assert(is_use_of(a, d, x) == is_use_of(b, d, x));
        }
        assert forall|r: int| 0 <= r < b.regions@.len() implies (#[trigger] b.tables.succs@[r])@ == region_succs(b, r) by {
            assert(region_succs(b, r) == region_succs(a, r));
        }
        assert forall|r: int, k: int| 0 <= r < b.regions@.len() && 0 <= k < b.regions@[r].cells@.len() implies {
            let x = (#[trigger] b.regions@[r].cells@[k]).0 as int;
            &&& cell_at(b, x) is Some
            &&& cell_at(b, x)->0.region.0 == r
        } by {
            let x = b.regions@[r].cells@[k].0 as int;
            assert(cell_at(a, x) is Some);
        }
        assert forall|i: int| #[trigger] cell_at(b, i) is Some implies {
            &&& (cell_at(b, i)->0.region.0 as int) < b.regions@.len()
            &&& b.regions@[cell_at(b, i)->0.region.0 as int].cells@.contains(CellId(i as u32))
            &&& cell_at(b, i)->0.operands.len() <= u32::MAX
        } by {
            assert(cell_at(a, i) is Some);
        }
    }
}

/// The use edges of the cell `to` with operand list `ops`, by slot.
pub open spec fn wires_of_cell(to: int, ops: Seq<CellId>) -> Seq<Wire> {
    Seq::new(ops.len(), |k: int| Wire { from: ops[k], to: CellId(to as u32), slot: k as u32 })
}

pub open spec fn wires_here(f: Fabric, i: int) -> Seq<Wire> {
    match cell_at(f, i) {
        Some(c) => wires_of_cell(i, c.operands),
        None => Seq::empty(),
    }
}

/// Every use edge of the cells with id at least `i`, in id then slot order.
pub open spec fn wires_from(f: Fabric, i: int) -> Seq<Wire>
    decreases f.slab@.len() - i,
{
    if i < 0 || i >= f.slab@.len() {
        Seq::empty()
    } else {
        wires_here(f, i) + wires_from(f, i + 1)
    }
}

pub open spec fn msg_assigned_twice(id: CellId) -> Seq<char> {
    seq!['c', 'e', 'l', 'l', ' '] + cell_id_text(id) + seq![' ', 'a', 's', 's', 'i', 'g', 'n', 'e', 'd', ' ', 't', 'w', 'i', 'c', 'e']
}

pub open spec fn msg_no_region(id: CellId, r: RegionId) -> Seq<char> {
    seq!['c', 'e', 'l', 'l', ' '] + cell_id_text(id) + seq![' ', 'p', 'l', 'a', 'c', 'e', 'd', ' ', 'i', 'n', ' ', 'n', 'o', 'n', 'e', 'x', 'i', 's', 't', 'e', 'n', 't', ' ', 'r', 'e', 'g', 'i', 'o', 'n', ' '] + region_id_text(r)
}

/// The type `c` produces, following phi first operands through `f`.
pub fn cell_ty_of(c: &Cell, f: &Fabric) -> (t: Option<Type>)
    requires
        ty_walk_ends(*f, c@),
    ensures
        t == cell_ty(*f, c@),
{
    let mut cur: &Cell = c;
    let mut fuel: usize = f.slab.len();
    loop
        invariant
            fuel <= f.slab@.len(),
            ty_walk(*f, cur@.kind, cur@.operands, fuel as nat) is Some,
            ty_walk(*f, cur@.kind, cur@.operands, fuel as nat) == ty_walk(*f, c@.kind, c@.operands, f.slab@.len() as nat),
        decreases fuel,
    {
        match &cur.kind {
            CellKind::Param { ty } => return Some(*ty),
            CellKind::Const { ty, .. } => return Some(*ty),
            CellKind::Arith { ty, .. } => return Some(*ty),
            CellKind::Cmp { .. } => return Some(Type::I1),
            CellKind::Phi { .. } => {
                if cur.operands.len() == 0 {
                    return None;
                }
                let first = cur.operands[0];
                match f.cell(first) {
                    None => return None,
                    Some(next) => {
                        cur = next;
                        fuel = fuel - 1;
                    },
                }
            },
            _ => return None,
        }
    }
}

impl UseTables {
    /// Full derivation from the fabric's content: the ground truth the
    /// maintained tables must equal.
    pub fn derive(f: &Fabric) -> (t: UseTables)
        requires
            f.slab@.len() <= u32::MAX,
            f.regions@.len() < u32::MAX,
        ensures
            content_wf(*f) ==> tables_match(*f, t),
    {
        let n = f.slab.len();
        let mut users: Vec<Vec<(CellId, u32)>> = Vec::new();
        let mut i: usize = 0;
        while i < n
            invariant
                i <= n,
                users@.len() == i,
                forall|d: int| 0 <= d < i ==> (#[trigger] users@[d])@.len() == 0,
            decreases n - i,
        {
            users.push(Vec::new());
            i = i + 1;
        }
        let mut i: usize = 0;
        while i < n
            invariant
                n == f.slab@.len(),
                n <= u32::MAX,
                i <= n,
                users@.len() == n,
                content_wf(*f) ==> {
                    &&& forall|d: int| 0 <= d < n ==> uses_sorted(#[trigger] users@[d]@)
                    &&& forall|d: int, k: int| 0 <= d < n && 0 <= k < users@[d]@.len() ==> (#[trigger] users@[d]@[k]).0.0 < i
                    &&& forall|d: int, u: (CellId, u32)| 0 <= d < n ==>
                        (#[trigger] users@[d]@.contains(u) <==> (is_use_of(*f, d, u) && u.0.0 < i))
                },
            decreases n - i,
        {
            match &f.slab[i] {
                Some(c) => {
                    let m = c.operands.len();
                    let mut slot: usize = 0;
                    while slot < m
                        invariant
                            n == f.slab@.len(),
                            n <= u32::MAX,
                            i < n,
                            m == c.operands@.len(),
                            slot <= m,
                            cell_at(*f, i as int) == Some(c@),
                            users@.len() == n,
                            content_wf(*f) ==> {
                                &&& m <= u32::MAX
                                &&& forall|d: int| 0 <= d < n ==> uses_sorted(#[trigger] users@[d]@)
                                &&& forall|d: int, k: int| 0 <= d < n && 0 <= k < users@[d]@.len() ==>
                                    (#[trigger] users@[d]@[k]).0.0 < i || ((users@[d]@[k]).0.0 == i && (users@[d]@[k].1 as int) < slot)
                                &&& forall|d: int, u: (CellId, u32)| 0 <= d < n ==>
                                    (#[trigger] users@[d]@.contains(u) <==> (is_use_of(*f, d, u) && (u.0.0 < i || (u.0.0 == i && (u.1 as int) < slot))))
                            },
                        decreases m - slot,
                    {
                        let op = c.operands[slot];
                        let key = (CellId(i as u32), slot as u32);
                        let ghost before = users@;
                        if (op.0 as usize) < users.len() {
                            users[op.0 as usize].push(key);
                        }
                        proof {
                            if content_wf(*f) {
                                assert forall|d: int| 0 <= d < n implies uses_sorted(#[trigger] users@[d]@) by {
                                    if d == op.0 {
                                        let row = users@[d]@;
                                        assert(row == before[d]@.push(key));
                                        assert forall|a: int, b: int| 0 <= a < b < row.len() implies use_key(row[a]) < use_key(row[b]) by {
                                            if b == row.len() - 1 {
                                                assert(row[a] == before[d]@[a]);
                                            }
                                        }
                                    } else {
                                        assert(users@[d] == before[d]);
                                    }
                                }
                                assert forall|d: int, k: int| 0 <= d < n && 0 <= k < users@[d]@.len() implies
                                    (#[trigger] users@[d]@[k]).0.0 < i || ((users@[d]@[k]).0.0 == i && (users@[d]@[k].1 as int) < slot + 1) by {
                                    if d == op.0 && k == users@[d]@.len() - 1 {
                                    } else if d == op.0 {
                                        assert(users@[d]@[k] == before[d]@[k]);
                                    } else {
                                        assert(users@[d] == before[d]);
                                    }
                                }
                                assert forall|d: int, u: (CellId, u32)| 0 <= d < n implies
                                    (#[trigger] users@[d]@.contains(u) <==> (is_use_of(*f, d, u) && (u.0.0 < i || (u.0.0 == i && (u.1 as int) < slot + 1)))) by {
                                    if d == op.0 {
                                        assert(users@[d]@ == before[d]@.push(key));
                                        if users@[d]@.contains(u) && u != key {
                                            let k = choose|k: int| 0 <= k < users@[d]@.len() && #[trigger] users@[d]@[k] == u;
                                            assert(before[d]@[k] == u);
                                        }
                                        if before[d]@.contains(u) {
                                            let k = choose|k: int| 0 <= k < before[d]@.len() && #[trigger] before[d]@[k] == u;
                                            assert(users@[d]@[k] == u);
                                        }
                                        if u == key {
                                            assert(users@[d]@[users@[d]@.len() - 1] == u);
                                        }
                                    } else {
                                        assert(users@[d] == before[d]);
                                    }
                                }
                            }
                        }
                        slot = slot + 1;
                    }
                },
                None => {},
            }
            proof {
                if content_wf(*f) {
                    assert forall|d: int, u: (CellId, u32)| 0 <= d < n implies
                        (#[trigger] users@[d]@.contains(u) <==> (is_use_of(*f, d, u) && u.0.0 < i + 1)) by {
                        if u.0.0 == i && is_use_of(*f, d, u) {
                            assert(cell_at(*f, i as int) is Some);
                        }
                    }
                }
            }
            i = i + 1;
        }
        let nr = f.regions.len();
        let mut succs: Vec<Vec<RegionId>> = Vec::new();
        let mut preds: Vec<Vec<RegionId>> = Vec::new();
        let mut k: usize = 0;
        while k < nr
            invariant
                k <= nr,
                succs@.len() == k,
                preds@.len() == k,
                forall|d: int| 0 <= d < k ==> (#[trigger] succs@[d])@.len() == 0,
                forall|d: int| 0 <= d < k ==> (#[trigger] preds@[d])@.len() == 0,
            decreases nr - k,
        {
            succs.push(Vec::new());
            preds.push(Vec::new());
            k = k + 1;
        }
        let mut t = UseTables { users, succs, preds };
        proof {
            assert forall|t2: int, r: RegionId| 0 <= t2 < t.preds@.len() implies
                (#[trigger] t.preds@[t2]@.contains(r) <==> (r.0 < t.succs@.len() && t.succs@[r.0 as int]@.contains(RegionId(t2 as u32)))) by {
                if r.0 < t.succs@.len() {
                    assert(t.succs@[r.0 as int]@.len() == 0);
                }
            }
            assert(t.links_agree());
        }
        let ghost users_done = t.users;
        let mut ri: usize = 0;
        while ri < nr
            invariant
                nr == f.regions@.len(),
                nr < u32::MAX,
                ri <= nr,
                t.users == users_done,
                t.links_agree(),
                t.succs@.len() >= nr,
                forall|r: int| 0 <= r < ri ==> (#[trigger] t.succs@[r])@ == region_succs(*f, r),
                forall|r: int| ri <= r < t.succs@.len() ==> (#[trigger] t.succs@[r])@.len() == 0,
            decreases nr - ri,
        {
            let len = f.regions[ri].cells.len();
            let mut row: Vec<RegionId> = Vec::new();
            if len > 0 {
                let last = f.regions[ri].cells[len - 1];
                match f.cell(last) {
                    Some(c) => {
                        row = crate::usetables::kind_succs(&c.kind);
                    },
                    None => {},
                }
            }
            proof {
                let cs = f.regions@[ri as int].cells@;
                if cs.len() > 0 {
                    assert(cs.last() == cs[cs.len() - 1]);
                }
                assert(row@ == region_succs(*f, ri as int));
            }
            let ghost before = t.succs@;
            t.set_succs(RegionId(ri as u32), row);
            proof {
                assert forall|r: int| 0 <= r < ri + 1 implies (#[trigger] t.succs@[r])@ == region_succs(*f, r) by {
                    if r < ri {
                        assert(t.succs@[r] == before[r]);
                    }
                }
                assert forall|r: int| ri + 1 <= r < t.succs@.len() implies (#[trigger] t.succs@[r])@.len() == 0 by {
                    if r < before.len() {
                        assert(t.succs@[r] == before[r]);
                    }
                }
            }
            ri = ri + 1;
        }
        proof {
            if content_wf(*f) {
                assert forall|d: int, u: (CellId, u32)| 0 <= d < t.users@.len() implies
                    (#[trigger] t.users@[d]@.contains(u) <==> is_use_of(*f, d, u)) by {
                    if is_use_of(*f, d, u) {
                        assert(cell_at(*f, u.0.0 as int) is Some);
                    }
                }
            }
        }
        t
    }
}

/// The tables are determined by the content: any two tables that both say
/// exactly what a fabric's content says agree on every users row, and on
/// every succs and preds row (rows past a table's end read as empty),
/// except for preds rows at or beyond the growth cap that only one of the
/// two tables holds.
pub proof fn lemma_tables_determined(f: Fabric, a: UseTables, b: UseTables)
    requires
        tables_match(f, a),
        tables_match(f, b),
    ensures
        a.users@.len() == b.users@.len(),
        forall|d: int| 0 <= d < a.users@.len() ==> #[trigger] a.users@[d]@ == b.users@[d]@,
        forall|r: int| #[trigger] row_at(a.succs@, r) == row_at(b.succs@, r),
        forall|t: int| (t < ROW_GROW_LIMIT || (t < a.preds@.len() && t < b.preds@.len())) ==>
            #[trigger] row_at(a.preds@, t) == row_at(b.preds@, t),
{
    assert forall|d: int| 0 <= d < a.users@.len() implies #[trigger] a.users@[d]@ == b.users@[d]@ by {
        assert forall|x: (CellId, u32)| a.users@[d]@.contains(x) <==> b.users@[d]@.contains(x) by {
            assert(a.users@[d]@.contains(x) == is_use_of(f, d, x));
            assert(b.users@[d]@.contains(x) == is_use_of(f, d, x));
        }
        crate::usetables::lemma_uses_sorted_unique(a.users@[d]@, b.users@[d]@);
    }
    assert forall|r: int| #[trigger] row_at(a.succs@, r) == row_at(b.succs@, r) by {
        if 0 <= r < f.regions@.len() {
        } else if 0 <= r {
            if r < a.succs@.len() {
                assert(a.succs@[r]@.len() == 0);
                assert(a.succs@[r]@ =~= Seq::<RegionId>::empty());
            }
            if r < b.succs@.len() {
                assert(b.succs@[r]@.len() == 0);
                assert(b.succs@[r]@ =~= Seq::<RegionId>::empty());
            }
        }
    }
    assert forall|t: int| (t < ROW_GROW_LIMIT || (t < a.preds@.len() && t < b.preds@.len())) implies
        #[trigger] row_at(a.preds@, t) == row_at(b.preds@, t) by {
        if 0 <= t {
            // membership of a preds row is decided by the (shared) succs rows
            assert forall|x: RegionId| (0 <= t < a.preds@.len() ==> (a.preds@[t]@.contains(x) <==> row_at(a.succs@, x.0 as int).contains(RegionId(t as u32)))) by {
                if 0 <= t < a.preds@.len() {
                    assert(a.preds@[t]@.contains(x) <==> (x.0 < a.succs@.len() && a.succs@[x.0 as int]@.contains(RegionId(t as u32))));
                }
            }
            assert forall|x: RegionId| (0 <= t < b.preds@.len() ==> (b.preds@[t]@.contains(x) <==> row_at(b.succs@, x.0 as int).contains(RegionId(t as u32)))) by {
                if 0 <= t < b.preds@.len() {
                    assert(b.preds@[t]@.contains(x) <==> (x.0 < b.succs@.len() && b.succs@[x.0 as int]@.contains(RegionId(t as u32))));
                }
            }
            if t < a.preds@.len() && t < b.preds@.len() {
                assert forall|x: RegionId| a.preds@[t]@.contains(x) <==> b.preds@[t]@.contains(x) by {
                    assert(row_at(a.succs@, x.0 as int) == row_at(b.succs@, x.0 as int));
                }
                crate::usetables::lemma_regions_sorted_unique(a.preds@[t]@, b.preds@[t]@);
            } else if t < a.preds@.len() {
                // t is below the cap but beyond b's rows: nothing targets it
                assert forall|x: RegionId| !a.preds@[t]@.contains(x) by {
                    if a.preds@[t]@.contains(x) {
                        assert(row_at(b.succs@, x.0 as int).contains(RegionId(t as u32)));
                        let k = choose|k: int| 0 <= k < b.succs@[x.0 as int]@.len() && #[trigger] b.succs@[x.0 as int]@[k] == RegionId(t as u32);
                        assert(b.succs@[x.0 as int]@[k].0 < b.preds@.len() || b.succs@[x.0 as int]@[k].0 >= ROW_GROW_LIMIT);
                    }
                }
                if a.preds@[t]@.len() > 0 {
                    assert(a.preds@[t]@.contains(a.preds@[t]@[0]));
                }
                assert(a.preds@[t]@ =~= Seq::<RegionId>::empty());
            } else if t < b.preds@.len() {
                assert forall|x: RegionId| !b.preds@[t]@.contains(x) by {
                    if b.preds@[t]@.contains(x) {
                        assert(row_at(a.succs@, x.0 as int).contains(RegionId(t as u32)));
                        let k = choose|k: int| 0 <= k < a.succs@[x.0 as int]@.len() && #[trigger] a.succs@[x.0 as int]@[k] == RegionId(t as u32);
                        assert(a.succs@[x.0 as int]@[k].0 < a.preds@.len() || a.succs@[x.0 as int]@[k].0 >= ROW_GROW_LIMIT);
                    }
                }
                if b.preds@[t]@.len() > 0 {
                    assert(b.preds@[t]@.contains(b.preds@[t]@[0]));
                }
                assert(b.preds@[t]@ =~= Seq::<RegionId>::empty());
            }
        }
    }
}

/// The type a cell of kind `k` with operands `ops` produces, following a
/// phi's first operand at most `fuel` times; None when the walk runs out
/// (a cycle of phis), Some(None) when the cell produces no typed value.
pub open spec fn ty_walk(f: Fabric, k: KindV, ops: Seq<CellId>, fuel: nat) -> Option<Option<Type>>
    decreases fuel,
{
    match k {
        KindV::Param { ty } => Some(Some(ty)),
        KindV::Const { ty, .. } => Some(Some(ty)),
        KindV::Arith { ty, .. } => Some(Some(ty)),
        KindV::Cmp { .. } => Some(Some(Type::I1)),
        KindV::Phi { .. } => if ops.len() == 0 {
            Some(None)
        } else {
            match cell_at(f, ops[0].0 as int) {
                None => Some(None),
                Some(c) => if fuel == 0 {
                    None
                } else {
                    ty_walk(f, c.kind, c.operands, (fuel - 1) as nat)
                },
            }
        },
        _ => Some(None),
    }
}

/// A phi's type walk is finite: it ends within as many steps as there
/// are slots.
pub open spec fn ty_walk_ends(f: Fabric, c: CellV) -> bool {
    ty_walk(f, c.kind, c.operands, f.slab@.len()) is Some
}

pub open spec fn cell_ty(f: Fabric, c: CellV) -> Option<Type> {
    ty_walk(f, c.kind, c.operands, f.slab@.len())->0
}

pub open spec fn bad_region_text() -> Seq<char> {
    seq!['<', 'b', 'a', 'd', '-', 'r', 'e', 'g', 'i', 'o', 'n', '>']
}

/// Two fabrics hold the same content: region names and cell lists, and
/// the cell (or hole) under every id. The tables are not content.
pub open spec fn same_content(a: Fabric, b: Fabric) -> bool {
    &&& a.regions@.len() == b.regions@.len()
    &&& forall|r: int| 0 <= r < a.regions@.len() ==> (#[trigger] a.regions@[r]).name@ == b.regions@[r].name@
        && a.regions@[r].cells@ == b.regions@[r].cells@
    &&& a.slab@.len() == b.slab@.len()
    &&& forall|i: int| 0 <= i < a.slab@.len() ==> #[trigger] cell_at(a, i) == cell_at(b, i)
}

fn ids_eq(a: &Vec<CellId>, b: &Vec<CellId>) -> (r: bool)
    ensures
        r == (a@ == b@),
{
    if a.len() != b.len() {
        return false;
    }
    let mut i: usize = 0;
    while i < a.len()
        invariant
            a@.len() == b@.len(),
            i <= a@.len(),
            forall|k: int| 0 <= k < i ==> a@[k] == b@[k],
        decreases a@.len() - i,
    {
        if a[i] != b[i] {
            return false;
        }
        i = i + 1;
    }
    assert(a@ =~= b@);
    true
}

fn regions_eq(a: &Vec<RegionId>, b: &Vec<RegionId>) -> (r: bool)
    ensures
        r == (a@ == b@),
{
    if a.len() != b.len() {
        return false;
    }
    let mut i: usize = 0;
    while i < a.len()
        invariant
            a@.len() == b@.len(),
            i <= a@.len(),
            forall|k: int| 0 <= k < i ==> a@[k] == b@[k],
        decreases a@.len() - i,
    {
        if a[i] != b[i] {
            return false;
        }
        i = i + 1;
    }
    assert(a@ =~= b@);
    true
}

fn kind_eq(a: &CellKind, b: &CellKind) -> (r: bool)
    ensures
        r == (a@ == b@),
{
    match (a, b) {
        (CellKind::Param { ty: x }, CellKind::Param { ty: y }) => *x == *y,
        (CellKind::Const { ty: x, val: v }, CellKind::Const { ty: y, val: w }) => *x == *y && *v == *w,
        (CellKind::Arith { op: o, ty: x }, CellKind::Arith { op: p, ty: y }) => *o == *p && *x == *y,
        (CellKind::Cmp { op: o }, CellKind::Cmp { op: p }) => *o == *p,
        (CellKind::Branch { then_r: t, else_r: e }, CellKind::Branch { then_r: u, else_r: g }) => *t == *u
            && *e == *g,
        (CellKind::Jump { target: t }, CellKind::Jump { target: u }) => *t == *u,
        (CellKind::Phi { joins: j }, CellKind::Phi { joins: k }) => regions_eq(j, k),
        (CellKind::Ret, CellKind::Ret) => true,
        _ => false,
    }
}

fn slot_eq(a: &Option<Cell>, b: &Option<Cell>) -> (r: bool)
    ensures
        r == (match a {
            Some(c) => Some(c@),
            None => None::<CellV>,
        } == match b {
            Some(c) => Some(c@),
            None => None::<CellV>,
        }),
{
    match (a, b) {
        (Some(x), Some(y)) => x.region == y.region && kind_eq(&x.kind, &y.kind) && ids_eq(&x.operands, &y.operands),
        (None, None) => true,
        _ => false,
    }
}

impl Fabric {
    /// Whether two fabrics hold the same content (tables excluded).
    pub fn same_content_as(&self, other: &Fabric) -> (r: bool)
        ensures
            r == same_content(*self, *other),
    {
        if self.regions.len() != other.regions.len() || self.slab.len() != other.slab.len() {
            return false;
        }
        let mut r: usize = 0;
        while r < self.regions.len()
            invariant
                self.regions@.len() == other.regions@.len(),
                r <= self.regions@.len(),
                forall|q: int| 0 <= q < r ==> (#[trigger] self.regions@[q]).name@ == other.regions@[q].name@
                    && self.regions@[q].cells@ == other.regions@[q].cells@,
            decreases self.regions@.len() - r,
        {
            if !crate::chars::str_eq(self.regions[r].name.as_str(), other.regions[r].name.as_str())
                || !ids_eq(&self.regions[r].cells, &other.regions[r].cells) {
                return false;
            }
            r = r + 1;
        }
        let mut i: usize = 0;
        while i < self.slab.len()
            invariant
                self.slab@.len() == other.slab@.len(),
                i <= self.slab@.len(),
                forall|k: int| 0 <= k < i ==> #[trigger] cell_at(*self, k) == cell_at(*other, k),
            decreases self.slab@.len() - i,
        {
            if !slot_eq(&self.slab[i], &other.slab[i]) {
                assert(cell_at(*self, i as int) != cell_at(*other, i as int));
                return false;
            }
            i = i + 1;
        }
        true
    }
}

impl PartialEq for Fabric {
    fn eq(&self, other: &Self) -> (r: bool) {
        self.same_content_as(other)
    }
}

impl vstd::std_specs::cmp::PartialEqSpecImpl for Fabric {
    open spec fn obeys_eq_spec() -> bool {
        true
    }

    open spec fn eq_spec(&self, other: &Self) -> bool {
        same_content(*self, *other)
    }
}

/// Fabric equality observes content, not the derived tables: a fabric
/// and any re-tabled twin are equal.
pub proof fn lemma_eq_ignores_tables(f: Fabric, t: UseTables)
    ensures
        same_content(f, Fabric { regions: f.regions, slab: f.slab, tables: t }),
{
}

/// Well-formed content depends on the content alone.
pub proof fn lemma_same_content_content_wf(a: Fabric, b: Fabric)
    requires
        same_content(a, b),
        content_wf(a),
    ensures
        content_wf(b),
{
    assert forall|i: int| cell_at(a, i) == cell_at(b, i) by {
        if 0 <= i < a.slab@.len() {
            assert(cell_at(a, i) == cell_at(b, i));
        }
    }
    assert forall|r: int, k: int| 0 <= r < b.regions@.len() && 0 <= k < b.regions@[r].cells@.len() implies {
        let id = (#[trigger] b.regions@[r].cells@[k]).0 as int;
        &&& cell_at(b, id) is Some
        &&& cell_at(b, id)->0.region.0 == r
    } by {
        assert(a.regions@[r].cells@ == b.regions@[r].cells@);
        assert(a.regions@[r].cells@[k] == b.regions@[r].cells@[k]);
    }
    assert forall|r: int, k1: int, k2: int| 0 <= r < b.regions@.len() && 0 <= k1 < k2 < b.regions@[r].cells@.len()
        implies #[trigger] b.regions@[r].cells@[k1] != #[trigger] b.regions@[r].cells@[k2] by {
        assert(a.regions@[r].cells@ == b.regions@[r].cells@);
        assert(a.regions@[r].cells@[k1] != a.regions@[r].cells@[k2]);
    }
    assert forall|i: int| #[trigger] cell_at(b, i) is Some implies {
        &&& (cell_at(b, i)->0.region.0 as int) < b.regions@.len()
        &&& b.regions@[cell_at(b, i)->0.region.0 as int].cells@.contains(CellId(i as u32))
        &&& cell_at(b, i)->0.operands.len() <= u32::MAX
    } by {
        assert(cell_at(a, i) is Some);
        let r = cell_at(a, i)->0.region.0 as int;
        assert(a.regions@[r].cells@ == b.regions@[r].cells@);
    }
}

/// Sharing content is symmetric.
pub proof fn lemma_same_content_sym(a: Fabric, b: Fabric)
    requires
        same_content(a, b),
    ensures
        same_content(b, a),
{
}

/// Sharing content is transitive.
pub proof fn lemma_same_content_trans(a: Fabric, b: Fabric, c: Fabric)
    requires
        same_content(a, b),
        same_content(b, c),
    ensures
        same_content(a, c),
{
    assert forall|r: int| 0 <= r < a.regions@.len() implies (#[trigger] a.regions@[r]).name@ == c.regions@[r].name@
        && a.regions@[r].cells@ == c.regions@[r].cells@ by {
        assert(b.regions@[r].name@ == c.regions@[r].name@);
    }
    assert forall|i: int| 0 <= i < a.slab@.len() implies #[trigger] cell_at(a, i) == cell_at(c, i) by {
        assert(cell_at(b, i) == cell_at(c, i));
    }
}

impl Fabric {
    /// A copy with the same content and tables derived afresh.
    pub fn copy(&self) -> (c: Fabric)
        requires
            self.slab@.len() <= u32::MAX,
            self.regions@.len() < u32::MAX,
        ensures
            same_content(*self, c),
            content_wf(*self) ==> c.wf(),
    {
        let mut regions: Vec<Region> = Vec::new();
        let mut r: usize = 0;
        while r < self.regions.len()
            invariant
                r <= self.regions@.len(),
                regions@.len() == r,
                forall|q: int| 0 <= q < r ==> (#[trigger] regions@[q]).name@ == self.regions@[q].name@
                    && regions@[q].cells@ == self.regions@[q].cells@,
            decreases self.regions@.len() - r,
        {
            let reg = &self.regions[r];
            regions.push(Region { name: reg.name.clone(), cells: crate::cell::copy_ids(&reg.cells) });
            r = r + 1;
        }
        let mut slab: Vec<Option<Cell>> = Vec::new();
        let mut i: usize = 0;
        while i < self.slab.len()
            invariant
                i <= self.slab@.len(),
                slab@.len() == i,
                forall|k: int| 0 <= k < i ==> match (#[trigger] slab@[k], self.slab@[k]) {
                    (Some(x), Some(y)) => x@ == y@,
                    (None, None) => true,
                    _ => false,
                },
            decreases self.slab@.len() - i,
        {
            let c: Option<Cell> = match &self.slab[i] {
                Some(x) => Some(x.copy()),
                None => None,
            };
            slab.push(c);
            i = i + 1;
        }
        let mut c = Fabric {
            regions,
            slab,
            tables: UseTables { users: Vec::new(), succs: Vec::new(), preds: Vec::new() },
        };
        proof {
            assert forall|k: int| 0 <= k < self.slab@.len() implies #[trigger] cell_at(*self, k) == cell_at(c, k) by {
                match (c.slab@[k], self.slab@[k]) {
                    (Some(x), Some(y)) => {},
                    _ => {},
                }
            }
            assert(same_content(*self, c));
            if content_wf(*self) {
                lemma_same_content_content_wf(*self, c);
            }
        }
        c.rebuild_tables();
        c
    }
}

} // verus!
