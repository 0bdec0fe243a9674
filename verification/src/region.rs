//! Statistics of the region-level passes: const-branch folding, region
//! DCE and CFG-graft inlining.

use vstd::prelude::*;
use crate::chars::push_str;
use crate::dec::{dec, push_dec};
use crate::diff::DiffRecord;
use crate::cell::{Cell, CellKind, CellV, KindV};
use crate::diff::Edit;
use crate::fabric::{Fabric, Region, cell_at, content_wf, same_content};
use crate::id::{CellId, cell_id_text, region_id_text};
use crate::text::{cell_text, region_text};
use crate::ty::ConstVal;
use crate::id::RegionId;
use crate::order::{ascending, lemma_u32_distinct_bound, sort_ids};
use crate::usetables::row_at;

verus! {

/// What const-branch folding saw and did.
#[derive(Debug, Default, Clone)]
pub struct FoldStats {
    pub branches_seen: usize,
    /// conditions that are dataflow-decidable
    pub const_conditioned: usize,
    /// edges dropped with the fabric still verifying
    pub folded: usize,
    /// zero-join phis collapsed to operands
    pub phi_collapses: usize,
    /// zero-join phis kept as one-join muxes
    pub kept_one_join: usize,
    /// edge drops refused or failing verification
    pub failed: usize,
}

/// What region DCE removed.
#[derive(Debug, Default, Clone)]
pub struct RegionDceStats {
    pub regions_before: usize,
    pub regions_removed: usize,
    pub cells_removed: usize,
    /// joins dropped from live phis
    pub live_phis_stripped: usize,
    pub phi_collapses: usize,
}

/// What CFG-graft inlining did.
#[derive(Debug, Default, Clone)]
pub struct InlineStats {
    pub calls_seen: usize,
    pub inlined: usize,
    pub skipped: usize,
    pub regions_grafted: usize,
    pub phis_built: usize,
    pub skips: Vec<String>,
}

/// A control edge from region `a` to region `b` in the fabric's tables.
pub open spec fn succ_edge(f: Fabric, a: u32, b: u32) -> bool {
    row_at(f.tables.succs@, a as int).contains(RegionId(b))
}

/// `p` is a walk along control edges.
pub open spec fn is_walk(f: Fabric, p: Seq<u32>) -> bool {
    &&& p.len() >= 1
    &&& forall|i: int| 0 <= i < p.len() - 1 ==> #[trigger] succ_edge(f, p[i], p[i + 1])
}

/// `to` can be reached from `from` over control edges (in zero or more
/// steps).
pub open spec fn region_reaches(f: Fabric, from: u32, to: u32) -> bool {
    exists|p: Seq<u32>| #[trigger] is_walk(f, p) && p[0] == from && p.last() == to
}

/// A set that holds the start of a walk and is closed under control
/// edges holds every region of the walk.
proof fn lemma_closed_holds_walk(f: Fabric, s: Seq<u32>, p: Seq<u32>, k: int)
    requires
        is_walk(f, p),
        s.contains(p[0]),
        forall|x: u32, y: u32| #[trigger] s.contains(x) && #[trigger] succ_edge(f, x, y) ==> s.contains(y),
        0 <= k < p.len(),
    ensures
        s.contains(p[k]),
    decreases k,
{
    if k > 0 {
        lemma_closed_holds_walk(f, s, p, k - 1);
        let i = k - 1;
        assert(succ_edge(f, p[i], p[i + 1]));
    }
}

proof fn lemma_reach_step(f: Fabric, from: u32, m: u32, to: u32)
    requires
        region_reaches(f, from, m),
        succ_edge(f, m, to),
    ensures
        region_reaches(f, from, to),
{
    let p = choose|p: Seq<u32>| #[trigger] is_walk(f, p) && p[0] == from && p.last() == m;
    let q = p.push(to);
    assert forall|i: int| 0 <= i < q.len() - 1 implies #[trigger] succ_edge(f, q[i], q[i + 1]) by {
        if i < p.len() - 1 {
            assert(succ_edge(f, p[i], p[i + 1]));
        }
    }
    assert(is_walk(f, q));
}

/// Regions reachable from the entry region over control edges, in
/// ascending order.
pub fn reachable_regions(f: &Fabric) -> (s: Vec<u32>)
    ensures
        ascending(s@),
        forall|x: u32| #[trigger] s@.contains(x) <==> f.regions@.len() > 0 && region_reaches(*f, 0, x),
{
    let mut seen: Vec<u32> = Vec::new();
    if f.regions.len() == 0 {
        assert(seen@.len() == 0);
        return seen;
    }
    let mut work: Vec<u32> = Vec::new();
    seen.push(0);
    work.push(0);
    assert(seen@[0] == 0);
    assert(work@[0] == 0);
    assert(is_walk(*f, seq![0u32]));
    while work.len() > 0
        invariant
            f.regions@.len() > 0,
            seen@.no_duplicates(),
            work@.no_duplicates(),
            seen@.contains(0),
            forall|x: u32| #[trigger] seen@.contains(x) ==> region_reaches(*f, 0, x),
            forall|x: u32| #[trigger] work@.contains(x) ==> seen@.contains(x),
            forall|x: u32, y: u32| #[trigger] seen@.contains(x) && #[trigger] succ_edge(*f, x, y) ==> work@.contains(x)
                || seen@.contains(y),
        decreases 0x1_0000_0000 - seen@.len(), work@.len(),
    {
        proof { lemma_u32_distinct_bound(seen@); }
        let ghost work_before = work@;
        let r = work.pop().unwrap();
        let ghost work_after = work@;
        assert(work_before == work@.push(r));
        assert(!work@.contains(r)) by {
            if work@.contains(r) {
                let i = choose|i: int| 0 <= i < work@.len() && work@[i] == r;
                assert(work_before[i] == work_before[work_before.len() - 1]);
            }
        }
        assert(work_before[work_before.len() - 1] == r);
        assert(work_before.contains(r));
        assert(seen@.contains(r));
        assert forall|x: u32| #[trigger] work@.contains(x) implies seen@.contains(x) by {
            let i = choose|i: int| 0 <= i < work@.len() && work@[i] == x;
            assert(work_before[i] == x);
            assert(work_before.contains(x));
        }
        assert(work@.no_duplicates()) by {
            assert forall|a: int, b: int| 0 <= a < work@.len() && 0 <= b < work@.len() && a != b implies work@[a]
                != work@[b] by {
                assert(work_before[a] == work@[a] && work_before[b] == work@[b]);
            }
        }
        let succ = f.successors(RegionId(r));
        let ghost seen0 = seen@;
        let mut j: usize = 0;
        while j < succ.len()
            invariant
                f.regions@.len() > 0,
                succ@ == row_at(f.tables.succs@, r as int),
                j <= succ@.len(),
                seen@.no_duplicates(),
                work@.no_duplicates(),
                seen0.contains(0),
                seen0.contains(r),
                !work@.contains(r),
                seen0.len() <= seen@.len(),
                forall|x: u32| #[trigger] seen0.contains(x) ==> seen@.contains(x),
                forall|x: u32| #[trigger] seen@.contains(x) ==> region_reaches(*f, 0, x),
                forall|x: u32| #[trigger] work@.contains(x) ==> seen@.contains(x),
                forall|k: int| 0 <= k < j ==> seen@.contains(#[trigger] succ@[k].0),
                forall|x: u32, y: u32| #[trigger] seen@.contains(x) && #[trigger] succ_edge(*f, x, y) ==> x == r
                    || work@.contains(x) || seen@.contains(y),
                work@.len() + seen0.len() >= work_after.len() + seen@.len(),
                work@.len() >= work_after.len(),
                seen@.len() - seen0.len() == work@.len() - work_after.len(),
            decreases succ@.len() - j,
        {
            let s = succ[j].0;
            if !contains_id(&seen, s) {
                proof {
                    assert(succ_edge(*f, r, s)) by {
                        assert(succ@[j as int] == RegionId(s));
                    }
                    lemma_reach_step(*f, 0, r, s);
                    assert(!work@.contains(s));
                }
                let ghost seen_before = seen@;
                let ghost work_before_push = work@;
                seen.push(s);
                work.push(s);
                proof {
                    assert(seen@[seen@.len() - 1] == s);
                    assert(work@[work@.len() - 1] == s);
                    assert forall|x: u32| #[trigger] seen_before.contains(x) implies seen@.contains(x) by {
                        let i = choose|i: int| 0 <= i < seen_before.len() && seen_before[i] == x;
                        assert(seen@[i] == x);
                    }
                    assert forall|x: u32| #[trigger] work_before_push.contains(x) implies work@.contains(x) by {
                        let i = choose|i: int| 0 <= i < work_before_push.len() && work_before_push[i] == x;
                        assert(work@[i] == x);
                    }
                    assert forall|x: u32| #[trigger] seen@.contains(x) implies x == s || seen_before.contains(x) by {
                        let i = choose|i: int| 0 <= i < seen@.len() && seen@[i] == x;
                        if i < seen_before.len() {
                            assert(seen_before[i] == x);
                        }
                    }
                    assert forall|x: u32| #[trigger] work@.contains(x) implies x == s || work_before_push.contains(x) by {
                        let i = choose|i: int| 0 <= i < work@.len() && work@[i] == x;
                        if i < work_before_push.len() {
                            assert(work_before_push[i] == x);
                        }
                    }
                }
            }
            j = j + 1;
        }
        proof {
            lemma_u32_distinct_bound(seen@);
            assert forall|x: u32, y: u32| #[trigger] seen@.contains(x) && #[trigger] succ_edge(*f, x, y) implies work@.contains(x)
                || seen@.contains(y) by {
                if x == r {
                    let k = choose|k: int| 0 <= k < succ@.len() && succ@[k] == RegionId(y);
                    assert(seen@.contains(succ@[k].0));
                }
            }
        }
    }
    proof {
        assert forall|x: u32| region_reaches(*f, 0, x) implies #[trigger] seen@.contains(x) by {
            let p = choose|p: Seq<u32>| #[trigger] is_walk(*f, p) && p[0] == 0 && p.last() == x;
            lemma_closed_holds_walk(*f, seen@, p, p.len() - 1);
        }
    }
    let ghost before = seen@;
    sort_ids(&mut seen);
    proof {
        assert forall|x: u32| #[trigger] seen@.contains(x) <==> before.contains(x) by {
            assert(seen@.to_multiset().count(x) == before.to_multiset().count(x));
            vstd::seq_lib::to_multiset_contains(seen@, x);
            vstd::seq_lib::to_multiset_contains(before, x);
        }
    }
    seen
}

/// Whether `x` occurs in `v`.
pub(crate) fn contains_id(v: &Vec<u32>, x: u32) -> (b: bool)
    ensures
        b == v@.contains(x),
{
    let mut i: usize = 0;
    while i < v.len()
        invariant
            i <= v@.len(),
            forall|k: int| 0 <= k < i ==> v@[k] != x,
        decreases v@.len() - i,
    {
        if v[i] == x {
            return true;
        }
        i = i + 1;
    }
    false
}

/// The note a region addition records.
pub open spec fn region_added_note(name: Seq<char>, r: u32) -> Seq<char> {
    "region '"@ + name + "' added as region "@ + dec(r as nat)
        + " \u{2014} NOT expressible in the Edit vocabulary (no RegionAdded kind); recorded as a note"@
}

/// Add an empty region to a copy of `f`. The caller populates it before
/// the fabric can verify. No edit kind expresses a new region, so the
/// record carries a note instead.
pub fn region_add(f: &Fabric, name: &str) -> (r: (Fabric, RegionId, DiffRecord))
    requires
        f.slab@.len() <= u32::MAX,
        f.regions@.len() < u32::MAX,
    ensures
        r.1.0 == f.regions@.len(),
        r.0.regions@.len() == f.regions@.len() + 1,
        forall|i: int| 0 <= i < f.regions@.len() ==> (#[trigger] r.0.regions@[i]).name@ == f.regions@[i].name@
            && r.0.regions@[i].cells@ == f.regions@[i].cells@,
        r.0.regions@[r.1.0 as int].name@ == name@,
        r.0.regions@[r.1.0 as int].cells@.len() == 0,
        r.0.slab@.len() == f.slab@.len(),
        forall|i: int| #[trigger] crate::fabric::cell_at(r.0, i) == crate::fabric::cell_at(*f, i),
        f.wf() && f.regions@.len() < crate::usetables::ROW_GROW_LIMIT ==> r.0.wf(),
        r.2.pass@ == "region-add"@,
        r.2.epoch == 0,
        r.2.edits@.len() == 0,
        r.2.notes@.len() == 1,
        r.2.notes@[0]@ == region_added_note(name@, r.1.0),
{
    let mut g = f.copy();
    let ghost g0 = g;
    let r = g.add_region(name);
    let mut rec = DiffRecord::new("region-add");
    let mut note = String::new();
    push_str(&mut note, "region '");
    push_str(&mut note, name);
    push_str(&mut note, "' added as region ");
    push_dec(&mut note, r.0 as u64);
    push_str(&mut note, " \u{2014} NOT expressible in the Edit vocabulary (no RegionAdded kind); recorded as a note");
    rec.notes.push(note);
    proof {
        assert forall|i: int| #[trigger] crate::fabric::cell_at(g, i) == crate::fabric::cell_at(*f, i) by {
            assert(crate::fabric::cell_at(g, i) == crate::fabric::cell_at(g0, i));
            if 0 <= i < f.slab@.len() {
                assert(same_content(*f, g0));
            }
        }
    }
    (g, r, rec)
}

/// The first region from `q` on, other than `r`, whose table successors
/// include `r`.
pub open spec fn targeting_scan(f: Fabric, r: u32, q: int) -> Option<int>
    decreases f.regions@.len() - q,
{
    if q < 0 || q >= f.regions@.len() {
        None
    } else if q != r && row_at(f.tables.succs@, q).contains(RegionId(r)) {
        Some(q)
    } else {
        targeting_scan(f, r, q + 1)
    }
}

/// Cell `i` is a phi outside region `r` that joins on `r`.
pub open spec fn joins_on(f: Fabric, r: u32, i: int) -> bool {
    &&& cell_at(f, i) is Some
    &&& cell_at(f, i)->0.region.0 != r
    &&& cell_at(f, i)->0.kind matches KindV::Phi { joins } && joins.contains(RegionId(r))
}

/// The first id from `i` on of a phi outside `r` joining on `r`.
pub open spec fn joining_scan(f: Fabric, r: u32, i: int) -> Option<int>
    decreases f.slab@.len() - i,
{
    if i < 0 || i >= f.slab@.len() {
        None
    } else if joins_on(f, r, i) {
        Some(i)
    } else {
        joining_scan(f, r, i + 1)
    }
}

/// Why `region_remove` refuses to remove region `r`, if it does.
pub open spec fn region_remove_refusal(f: Fabric, r: RegionId) -> Option<Seq<char>> {
    if f.regions@.len() == 0 {
        Some("region_remove: fabric has no regions"@)
    } else if r.0 == 0 {
        Some("region_remove: refusing to remove the entry region"@)
    } else if r.0 as int >= f.regions@.len() {
        Some("region_remove: no such region "@ + region_id_text(r))
    } else {
        match targeting_scan(f, r.0, 0) {
            Some(q) => Some("region_remove: '"@ + region_text(f, RegionId(q as u32)) + "' still targets '"@
                + region_text(f, r) + "' \u{2014} strip the edge first"@),
            None => match joining_scan(f, r.0, 0) {
                Some(i) => Some("region_remove: phi "@ + cell_id_text(CellId(i as u32)) + " outside '"@
                    + region_id_text(r) + "' joins on it \u{2014} strip joins first"@),
                None => None,
            },
        }
    }
}

/// Whether `v` holds region `r`.
fn has_region(v: &[RegionId], r: RegionId) -> (b: bool)
    ensures
        b == v@.contains(r),
{
    let mut i: usize = 0;
    while i < v.len()
        invariant
            i <= v@.len(),
            forall|k: int| 0 <= k < i ==> v@[k] != r,
        decreases v@.len() - i,
    {
        if v[i].0 == r.0 {
            assert(v@[i as int] == r);
            return true;
        }
        i = i + 1;
    }
    false
}

/// Check whether region `r` can be removed; the refusal message if not.
fn region_remove_check(f: &Fabric, r: RegionId) -> (m: Option<String>)
    requires
        f.slab@.len() <= u32::MAX,
        f.regions@.len() < u32::MAX,
    ensures
        match m {
            Some(s) => region_remove_refusal(*f, r) == Some(s@),
            None => region_remove_refusal(*f, r) is None,
        },
{
    if f.regions.len() == 0 {
        let mut s = String::new();
        push_str(&mut s, "region_remove: fabric has no regions");
        return Some(s);
    }
    if r.0 == 0 {
        let mut s = String::new();
        push_str(&mut s, "region_remove: refusing to remove the entry region");
        return Some(s);
    }
    if r.0 as usize >= f.regions.len() {
        let mut s = String::new();
        push_str(&mut s, "region_remove: no such region ");
        let t = r.to_text();
        push_str(&mut s, t.as_str());
        return Some(s);
    }
    let mut q: usize = 0;
    while q < f.regions.len()
        invariant
            f.regions@.len() < u32::MAX,
            f.regions@.len() > 0,
            r.0 != 0,
            (r.0 as int) < f.regions@.len(),
            q <= f.regions@.len(),
            targeting_scan(*f, r.0, 0) == targeting_scan(*f, r.0, q as int),
        decreases f.regions@.len() - q,
    {
        if q != r.0 as usize && has_region(f.successors(RegionId(q as u32)), r) {
            let mut s = String::new();
            push_str(&mut s, "region_remove: '");
            push_str(&mut s, f.region_name(RegionId(q as u32)));
            push_str(&mut s, "' still targets '");
            push_str(&mut s, f.region_name(r));
            push_str(&mut s, "' \u{2014} strip the edge first");
            assert(targeting_scan(*f, r.0, q as int) == Some(q as int));
            return Some(s);
        }
        q = q + 1;
    }
    let mut i: usize = 0;
    while i < f.slab.len()
        invariant
            f.slab@.len() <= u32::MAX,
            f.regions@.len() > 0,
            r.0 != 0,
            (r.0 as int) < f.regions@.len(),
            i <= f.slab@.len(),
            targeting_scan(*f, r.0, 0) is None,
            joining_scan(*f, r.0, 0) == joining_scan(*f, r.0, i as int),
        decreases f.slab@.len() - i,
    {
        let id = CellId(i as u32);
        if let Some(c) = f.cell(id) {
            if c.region.0 != r.0 {
                if let CellKind::Phi { joins } = &c.kind {
                    if has_region(joins.as_slice(), r) {
                        assert(joins_on(*f, r.0, i as int));
                        let mut s = String::new();
                        push_str(&mut s, "region_remove: phi ");
                        let t = id.to_text();
                        push_str(&mut s, t.as_str());
                        push_str(&mut s, " outside '");
                        let rt = r.to_text();
                        push_str(&mut s, rt.as_str());
                        push_str(&mut s, "' joins on it \u{2014} strip joins first");
                        return Some(s);
                    }
                }
            }
        }
        assert(!joins_on(*f, r.0, i as int));
        i = i + 1;
    }
    None
}

/// A region id after region `r` leaves: later ids move down by one.
pub open spec fn remap_id(x: RegionId, r: u32) -> RegionId {
    if x.0 > r {
        RegionId((x.0 - 1) as u32)
    } else {
        x
    }
}

/// A cell kind with its region references remapped.
pub open spec fn remap_kind(k: KindV, r: u32) -> KindV {
    match k {
        KindV::Branch { then_r, else_r } => KindV::Branch { then_r: remap_id(then_r, r), else_r: remap_id(else_r, r) },
        KindV::Jump { target } => KindV::Jump { target: remap_id(target, r) },
        KindV::Phi { joins } => KindV::Phi { joins: joins.map_values(|j: RegionId| remap_id(j, r)) },
        _ => k,
    }
}

/// A cell with its region references remapped.
pub open spec fn remap_cell(c: CellV, r: u32) -> CellV {
    CellV { region: remap_id(c.region, r), kind: remap_kind(c.kind, r), operands: c.operands }
}

/// The cell under id `i` once region `r` is removed: gone if it lived in
/// `r`, remapped otherwise.
pub open spec fn removed_cell_at(f: Fabric, r: u32, i: int) -> Option<CellV> {
    match cell_at(f, i) {
        Some(c) => if c.region.0 == r {
            None
        } else {
            Some(remap_cell(c, r))
        },
        None => None,
    }
}

/// The region of the original fabric that becomes region `q` once `r`
/// is removed.
pub open spec fn kept_region(q: int, r: u32) -> int {
    if q < r {
        q
    } else {
        q + 1
    }
}

/// Renumbering after removing region `r` keeps the order of the regions
/// that stay and skips `r`: `kept_region` never gives `r`, moves a
/// number up by at most one, and is strictly increasing.
pub proof fn lemma_kept_region_skips(q: int, q2: int, r: u32)
    requires
        0 <= q,
    ensures
        kept_region(q, r) != r,
        kept_region(q, r) == q || kept_region(q, r) == q + 1,
        q < q2 ==> kept_region(q, r) < kept_region(q2, r),
{
}

/// Renumbering after removing region `r` is undone by `kept_region`: a
/// region other than `r` gets a number that leads back to it.
pub proof fn lemma_remap_kept(x: RegionId, r: u32)
    requires
        x.0 != r,
    ensures
        kept_region(remap_id(x, r).0 as int, r) == x.0,
        remap_id(x, r).0 < x.0 <==> x.0 > r,
{
}

/// Removing region `r` leaves every cell outside it in place, with the
/// same operands, in its own region renumbered; a branch keeps its then
/// target as its then target and its else target as its else target, a
/// jump its target and a phi its joins in order, each renumbered (for a
/// reference to a region other than `r`); any other kind is unchanged.
/// `h` is any fabric whose cells are those `region_remove` leaves.
pub proof fn lemma_remove_renumbers(f: Fabric, h: Fabric, r: u32, i: int)
    requires
        forall|k: int| #[trigger] cell_at(h, k) == removed_cell_at(f, r, k),
        cell_at(f, i) matches Some(c) && c.region.0 != r,
    ensures
        ({
            let c = cell_at(f, i)->0;
            let d = cell_at(h, i)->0;
            &&& cell_at(h, i) is Some
            &&& d.operands == c.operands
            &&& kept_region(d.region.0 as int, r) == c.region.0
            &&& match c.kind {
                KindV::Branch { then_r, else_r } => d.kind matches KindV::Branch { then_r: t, else_r: e } && (then_r.0 != r
                    ==> kept_region(t.0 as int, r) == then_r.0) && (else_r.0 != r ==> kept_region(e.0 as int, r) == else_r.0),
                KindV::Jump { target } => d.kind matches KindV::Jump { target: t } && (target.0 != r ==> kept_region(
                    t.0 as int,
                    r,
                ) == target.0),
                KindV::Phi { joins } => d.kind matches KindV::Phi { joins: dj } && dj.len() == joins.len() && forall|k: int|
                    0 <= k < joins.len() && joins[k].0 != r ==> kept_region((#[trigger] dj[k]).0 as int, r) == joins[k].0,
                _ => d.kind == c.kind,
            }
        }),
{
    let c = cell_at(f, i)->0;
    assert(cell_at(h, i) == removed_cell_at(f, r, i));
}

fn remap_region_id(x: RegionId, r: u32) -> (y: RegionId)
    ensures
        y == remap_id(x, r),
{
    if x.0 > r {
        RegionId(x.0 - 1)
    } else {
        x
    }
}

/// A copy of `c` with its region references remapped.
fn remap_cell_copy(c: &Cell, r: u32) -> (d: Cell)
    ensures
        d@ == remap_cell(c@, r),
{
    let kind = match &c.kind {
        CellKind::Branch { then_r, else_r } => CellKind::Branch {
            then_r: remap_region_id(*then_r, r),
            else_r: remap_region_id(*else_r, r),
        },
        CellKind::Jump { target } => CellKind::Jump { target: remap_region_id(*target, r) },
        CellKind::Phi { joins } => {
            let mut v: Vec<RegionId> = Vec::new();
            let mut k: usize = 0;
            while k < joins.len()
                invariant
                    k <= joins@.len(),
                    v@ == joins@.take(k as int).map_values(|j: RegionId| remap_id(j, r)),
                decreases joins@.len() - k,
            {
                v.push(remap_region_id(joins[k], r));
                k = k + 1;
                assert(v@ =~= joins@.take(k as int).map_values(|j: RegionId| remap_id(j, r)));
            }
            assert(joins@.take(joins@.len() as int) =~= joins@);
            CellKind::Phi { joins: v }
        },
        _ => c.kind.copy(),
    };
    Cell { region: remap_region_id(c.region, r), kind, operands: crate::cell::copy_ids(&c.operands) }
}

/// Removing region `r` keeps the content well formed.
proof fn lemma_removal_content_wf(f: Fabric, h: Fabric, r: u32)
    requires
        content_wf(f),
        0 < r,
        (r as int) < f.regions@.len(),
        h.regions@.len() == f.regions@.len() - 1,
        forall|q: int| 0 <= q < h.regions@.len() ==> (#[trigger] h.regions@[q]).cells@ == f.regions@[kept_region(q, r)].cells@,
        h.slab@.len() == f.slab@.len(),
        forall|i: int| #[trigger] cell_at(h, i) == removed_cell_at(f, r, i),
    ensures
        content_wf(h),
{
    assert forall|q: int, k: int| 0 <= q < h.regions@.len() && 0 <= k < h.regions@[q].cells@.len() implies {
        let id = (#[trigger] h.regions@[q].cells@[k]).0 as int;
        &&& cell_at(h, id) is Some
        &&& cell_at(h, id)->0.region.0 == q
    } by {
        let q2 = kept_region(q, r);
        assert(h.regions@[q].cells@ == f.regions@[q2].cells@);
        let id = f.regions@[q2].cells@[k].0 as int;
        assert(cell_at(f, id) is Some && cell_at(f, id)->0.region.0 == q2);
        assert(cell_at(h, id) == removed_cell_at(f, r, id));
    }
    assert forall|q: int, k1: int, k2: int| 0 <= q < h.regions@.len() && 0 <= k1 < k2 < h.regions@[q].cells@.len()
        implies #[trigger] h.regions@[q].cells@[k1] != #[trigger] h.regions@[q].cells@[k2] by {
        let q2 = kept_region(q, r);
        assert(h.regions@[q].cells@ == f.regions@[q2].cells@);
        assert(f.regions@[q2].cells@[k1] != f.regions@[q2].cells@[k2]);
    }
    assert forall|i: int| #[trigger] cell_at(h, i) is Some implies {
        &&& (cell_at(h, i)->0.region.0 as int) < h.regions@.len()
        &&& h.regions@[cell_at(h, i)->0.region.0 as int].cells@.contains(CellId(i as u32))
        &&& cell_at(h, i)->0.operands.len() <= u32::MAX
    } by {
        assert(cell_at(h, i) == removed_cell_at(f, r, i));
        assert(cell_at(f, i) is Some);
        let q2 = cell_at(f, i)->0.region.0 as int;
        let q = remap_id(cell_at(f, i)->0.region, r).0 as int;
        assert(kept_region(q, r) == q2);
        assert(h.regions@[q].cells@ == f.regions@[q2].cells@);
    }
}

/// A cell of region `r` under id `i` holds no float constant.
pub open spec fn printable_in(f: Fabric, r: RegionId, i: int) -> bool {
    match cell_at(f, i) {
        Some(c) => c.region == r ==> !(c.kind matches KindV::Const { val: ConstVal::F64(_), .. }),
        None => true,
    }
}

/// The ledger of a cell dropped with region `name`.
pub open spec fn removal_ledger(name: Seq<char>) -> Seq<char> {
    "region-remove: '"@ + name + "' unreachable, all cells dropped with it"@
}

/// The note of a region removal.
pub open spec fn removal_note(name: Seq<char>, r: u32) -> Seq<char> {
    "region '"@ + name + "' removed and ids "@ + dec((r + 1) as nat)
        + ".. compacted \u{2014} NOT expressible in the Edit vocabulary (no RegionRemoved kind); recorded as a note"@
}

/// Remove region `r`: its cells vanish (removal edits with ledger
/// entries), the region leaves the list, and every region id after it
/// moves down by one with all references remapped (cell regions, branch
/// and jump targets, phi joins). Refused when `r` is the entry region,
/// absent, still targeted by another region's terminator, or joined on
/// by a phi outside it. Region removal itself is not an edit kind; the
/// record carries a note for it.
pub fn region_remove(f: &Fabric, r: RegionId) -> (res: Result<(Fabric, DiffRecord), String>)
    requires
        content_wf(*f),
        forall|i: int| #[trigger] printable_in(*f, r, i),
    ensures
        match res {
            Err(m) => region_remove_refusal(*f, r) == Some(m@),
            Ok((h, rec)) => {
                let list = f.regions@[r.0 as int].cells@;
                &&& region_remove_refusal(*f, r) is None
                &&& h.wf()
                &&& h.regions@.len() == f.regions@.len() - 1
                &&& forall|q: int| 0 <= q < h.regions@.len() ==> (#[trigger] h.regions@[q]).name@ == f.regions@[kept_region(
                    q,
                    r.0,
                )].name@ && h.regions@[q].cells@ == f.regions@[kept_region(q, r.0)].cells@
                &&& h.slab@.len() == f.slab@.len()
                &&& forall|i: int| #[trigger] cell_at(h, i) == removed_cell_at(*f, r.0, i)
                &&& rec.pass@ == "region-remove"@
                &&& rec.epoch == 0
                &&& rec.notes@.len() == 1
                &&& rec.notes@[0]@ == removal_note(f.regions@[r.0 as int].name@, r.0)
                &&& rec.edits@.len() == list.len()
                &&& forall|k: int| 0 <= k < list.len() ==> (#[trigger] rec.edits@[k] matches Edit::RemoveCell {
                    id,
                    ledger,
                    summary,
                } && id == list[k] && ledger@ == removal_ledger(f.regions@[r.0 as int].name@) && summary@ == cell_text(*f, id))
            },
        },
{
    if let Some(m) = region_remove_check(f, r) {
        return Err(m);
    }
    let ri = r.0 as usize;
    let name = f.regions[ri].name.as_str();
    let mut rec = DiffRecord::new("region-remove");
    let list = &f.regions[ri].cells;
    let mut k: usize = 0;
    while k < list.len()
        invariant
            content_wf(*f),
            forall|i: int| #[trigger] printable_in(*f, r, i),
            (ri as int) < f.regions@.len(),
            ri == r.0,
            list@ == f.regions@[ri as int].cells@,
            name@ == f.regions@[ri as int].name@,
            rec.pass@ == "region-remove"@,
            rec.epoch == 0,
            rec.notes@.len() == 0,
            k <= list@.len(),
            rec.edits@.len() == k,
            forall|j: int| 0 <= j < k ==> (#[trigger] rec.edits@[j] matches Edit::RemoveCell {
                id,
                ledger,
                summary,
            } && id == list@[j] && ledger@ == removal_ledger(name@) && summary@ == cell_text(*f, id)),
        decreases list@.len() - k,
    {
        let id = list[k];
        proof {
            assert(cell_at(*f, id.0 as int) is Some && cell_at(*f, id.0 as int)->0.region.0 == ri);
            assert(printable_in(*f, r, id.0 as int));
        }
        let summary = crate::text::render_cell(f, id);
        let mut ledger = String::new();
        push_str(&mut ledger, "region-remove: '");
        push_str(&mut ledger, name);
        push_str(&mut ledger, "' unreachable, all cells dropped with it");
        rec.edits.push(Edit::RemoveCell { id, ledger, summary });
        k = k + 1;
    }
    let mut regions: Vec<Region> = Vec::new();
    let mut q: usize = 0;
    while q < f.regions.len()
        invariant
            (ri as int) < f.regions@.len(),
            ri == r.0,
            q <= f.regions@.len(),
            regions@.len() == if q <= ri { q as int } else { q - 1 },
            forall|x: int| 0 <= x < regions@.len() ==> (#[trigger] regions@[x]).name@ == f.regions@[kept_region(x, ri as u32)].name@
                && regions@[x].cells@ == f.regions@[kept_region(x, ri as u32)].cells@,
        decreases f.regions@.len() - q,
    {
        if q != ri {
            let reg = &f.regions[q];
            let ghost before = regions@;
            regions.push(Region { name: reg.name.clone(), cells: crate::cell::copy_ids(&reg.cells) });
            proof {
                assert(kept_region(before.len() as int, ri as u32) == q);
                assert forall|x: int| 0 <= x < regions@.len() implies (#[trigger] regions@[x]).name@ == f.regions@[kept_region(x, ri as u32)].name@
                    && regions@[x].cells@ == f.regions@[kept_region(x, ri as u32)].cells@ by {
                    if x < before.len() {
                        assert(regions@[x] == before[x]);
                    }
                }
            }
        }
        q = q + 1;
    }
    let mut slab: Vec<Option<Cell>> = Vec::new();
    let mut i: usize = 0;
    while i < f.slab.len()
        invariant
            ri == r.0,
            i <= f.slab@.len(),
            slab@.len() == i,
            forall|x: int| 0 <= x < i ==> match #[trigger] slab@[x] {
                Some(c) => removed_cell_at(*f, ri as u32, x) == Some(c@),
                None => removed_cell_at(*f, ri as u32, x) is None,
            },
        decreases f.slab@.len() - i,
    {
        let c: Option<Cell> = match &f.slab[i] {
            Some(c) => if c.region.0 as usize == ri {
                None
            } else {
                Some(remap_cell_copy(c, ri as u32))
            },
            None => None,
        };
        slab.push(c);
        i = i + 1;
    }
    let mut h = Fabric {
        regions,
        slab,
        tables: crate::usetables::UseTables { users: Vec::new(), succs: Vec::new(), preds: Vec::new() },
    };
    proof {
        assert forall|x: int| #[trigger] cell_at(h, x) == removed_cell_at(*f, ri as u32, x) by {
            if 0 <= x < h.slab@.len() {
                match h.slab@[x] {
                    Some(c) => {},
                    None => {},
                }
            }
        }
        lemma_removal_content_wf(*f, h, ri as u32);
    }
    let ghost h0 = h;
    h.rebuild_tables();
    proof {
        assert forall|x: int| #[trigger] cell_at(h, x) == removed_cell_at(*f, ri as u32, x) by {
            assert(cell_at(h, x) == cell_at(h0, x));
        }
    }
    let mut note = String::new();
    push_str(&mut note, "region '");
    push_str(&mut note, name);
    push_str(&mut note, "' removed and ids ");
    push_dec(&mut note, (r.0 as u64) + 1);
    push_str(&mut note, ".. compacted \u{2014} NOT expressible in the Edit vocabulary (no RegionRemoved kind); recorded as a note");
    rec.notes.push(note);
    Ok((h, rec))
}

/// The last binding of cell `k` in an association list.
pub open spec fn assoc_cell(m: Seq<(CellId, CellId)>, k: CellId) -> Option<CellId>
    decreases m.len(),
{
    if m.len() == 0 {
        None
    } else if m.last().0 == k {
        Some(m.last().1)
    } else {
        assoc_cell(m.drop_last(), k)
    }
}

/// The last binding of region number `k` in an association list.
pub open spec fn assoc_region(m: Seq<(u32, RegionId)>, k: u32) -> Option<RegionId>
    decreases m.len(),
{
    if m.len() == 0 {
        None
    } else if m.last().0 == k {
        Some(m.last().1)
    } else {
        assoc_region(m.drop_last(), k)
    }
}

/// The first operand from `i` on that `m` does not bind.
pub open spec fn first_unbound(m: Seq<(CellId, CellId)>, ops: Seq<CellId>, i: int) -> Option<CellId>
    decreases ops.len() - i,
{
    if i < 0 || i >= ops.len() {
        None
    } else if assoc_cell(m, ops[i]) is None {
        Some(ops[i])
    } else {
        first_unbound(m, ops, i + 1)
    }
}

/// The first phi join from `i` on that `rm` does not bind.
pub open spec fn first_unbound_join(rm: Seq<(u32, RegionId)>, joins: Seq<RegionId>, i: int) -> Option<RegionId>
    decreases joins.len() - i,
{
    if i < 0 || i >= joins.len() {
        None
    } else if assoc_region(rm, joins[i].0) is None {
        Some(joins[i])
    } else {
        first_unbound_join(rm, joins, i + 1)
    }
}

/// A donor cell grafted into region `dest` under the cell bindings `m`
/// and the region bindings `rm`, or why it cannot be.
pub open spec fn graft_cell(donor: Fabric, did: CellId, m: Seq<(CellId, CellId)>, rm: Seq<(u32, RegionId)>, dest: RegionId) -> Result<
    CellV,
    Seq<char>,
> {
    match cell_at(donor, did.0 as int) {
        None => Err("graft: donor cell "@ + cell_id_text(did) + " missing"@),
        Some(dc) => match first_unbound(m, dc.operands, 0) {
            Some(op) => Err("graft: operand "@ + cell_id_text(op) + " of donor cell "@ + cell_id_text(did)
                + " is unmapped (bind params / graft dependencies first)"@),
            None => {
                let ops = dc.operands.map_values(|o: CellId| assoc_cell(m, o)->0);
                match dc.kind {
                    KindV::Branch { then_r, else_r } => match assoc_region(rm, then_r.0) {
                        None => Err("graft: branch target '"@ + region_text(donor, then_r) + "' unmapped"@),
                        Some(t) => match assoc_region(rm, else_r.0) {
                            None => Err("graft: branch target '"@ + region_text(donor, else_r) + "' unmapped"@),
                            Some(e) => Ok(CellV { region: dest, kind: KindV::Branch { then_r: t, else_r: e }, operands: ops }),
                        },
                    },
                    KindV::Jump { target } => match assoc_region(rm, target.0) {
                        None => Err("graft: jump target '"@ + region_text(donor, target) + "' unmapped"@),
                        Some(t) => Ok(CellV { region: dest, kind: KindV::Jump { target: t }, operands: ops }),
                    },
                    KindV::Phi { joins } => match first_unbound_join(rm, joins, 0) {
                        Some(j) => Err("graft: phi join '"@ + region_text(donor, j) + "' unmapped"@),
                        None => Ok(CellV {
                            region: dest,
                            kind: KindV::Phi { joins: joins.map_values(|j: RegionId| assoc_region(rm, j.0)->0) },
                            operands: ops,
                        }),
                    },
                    KindV::Param { .. } => Err("graft: param "@ + cell_id_text(did)
                        + " in a non-entry donor region \u{2014} V12 makes it ungraftable (bind it to a value first)"@),
                    _ => Ok(CellV { region: dest, kind: dc.kind, operands: ops }),
                }
            },
        },
    }
}

/// The cell bindings in force at donor cell `k`: the given ones, then
/// each earlier donor cell bound to its copy.
pub open spec fn graft_map(cm: Seq<(CellId, CellId)>, list: Seq<CellId>, base: int, k: int) -> Seq<(CellId, CellId)> {
    cm + Seq::new(k as nat, |j: int| (list[j], CellId((base + j) as u32)))
}

/// The grafted copies of the first `n` donor cells, or the first reason
/// one cannot be grafted.
pub open spec fn graft_prefix(
    donor: Fabric,
    list: Seq<CellId>,
    cm: Seq<(CellId, CellId)>,
    rm: Seq<(u32, RegionId)>,
    dest: RegionId,
    base: int,
    n: int,
) -> Result<Seq<CellV>, Seq<char>>
    decreases n,
{
    if n <= 0 {
        Ok(Seq::empty())
    } else {
        match graft_prefix(donor, list, cm, rm, dest, base, n - 1) {
            Err(e) => Err(e),
            Ok(cs) => match graft_cell(donor, list[n - 1], graft_map(cm, list, base, n - 1), rm, dest) {
                Err(e) => Err(e),
                Ok(c) => Ok(cs.push(c)),
            },
        }
    }
}

/// The cells of the donor region, in order (none when it is absent).
pub open spec fn donor_list(donor: Fabric, r: RegionId) -> Seq<CellId> {
    if (r.0 as int) < donor.regions@.len() {
        donor.regions@[r.0 as int].cells@
    } else {
        Seq::empty()
    }
}

fn lookup_cell(m: &Vec<(CellId, CellId)>, k: CellId) -> (r: Option<CellId>)
    ensures
        r == assoc_cell(m@, k),
{
    let mut i = m.len();
    assert(m@.take(m@.len() as int) =~= m@);
    while i > 0
        invariant
            i <= m@.len(),
            assoc_cell(m@, k) == assoc_cell(m@.take(i as int), k),
        decreases i,
    {
        let ghost t = m@.take(i as int);
        assert(t.drop_last() =~= m@.take(i - 1));
        if m[i - 1].0.0 == k.0 {
            assert(t.last() == m@[i - 1]);
            return Some(m[i - 1].1);
        }
        i = i - 1;
    }
    None
}

fn lookup_region(m: &[(u32, RegionId)], k: u32) -> (r: Option<RegionId>)
    ensures
        r == assoc_region(m@, k),
{
    let mut i = m.len();
    assert(m@.take(m@.len() as int) =~= m@);
    while i > 0
        invariant
            i <= m@.len(),
            assoc_region(m@, k) == assoc_region(m@.take(i as int), k),
        decreases i,
    {
        let ghost t = m@.take(i as int);
        assert(t.drop_last() =~= m@.take(i - 1));
        if m[i - 1].0 == k {
            assert(t.last() == m@[i - 1]);
            return Some(m[i - 1].1);
        }
        i = i - 1;
    }
    None
}

/// A message: `pre`, a region's name in `f`, `post`.
fn msg_with_name(pre: &str, f: &Fabric, r: RegionId, post: &str) -> (m: String)
    ensures
        m@ == pre@ + region_text(*f, r) + post@,
{
    let mut m = String::new();
    push_str(&mut m, pre);
    push_str(&mut m, f.region_name(r));
    push_str(&mut m, post);
    m
}

/// Graft one donor cell into `dest` under the bindings `m` and `rm`.
fn graft_one(donor: &Fabric, did: CellId, m: &Vec<(CellId, CellId)>, rm: &[(u32, RegionId)], dest: RegionId) -> (r: Result<
    Cell,
    String,
>)
    ensures
        match (r, graft_cell(*donor, did, m@, rm@, dest)) {
            (Ok(c), Ok(v)) => c@ == v,
            (Err(e), Err(s)) => e@ == s,
            _ => false,
        },
{
    let dc = match donor.cell(did) {
        Some(c) => c,
        None => {
            let mut e = String::new();
            push_str(&mut e, "graft: donor cell ");
            let t = did.to_text();
            push_str(&mut e, t.as_str());
            push_str(&mut e, " missing");
            return Err(e);
        },
    };
    let mut ops: Vec<CellId> = Vec::new();
    let mut i: usize = 0;
    while i < dc.operands.len()
        invariant
            i <= dc.operands@.len(),
            cell_at(*donor, did.0 as int) == Some(dc@),
            first_unbound(m@, dc.operands@, 0) == first_unbound(m@, dc.operands@, i as int),
            ops@ == dc.operands@.take(i as int).map_values(|o: CellId| assoc_cell(m@, o)->0),
        decreases dc.operands@.len() - i,
    {
        let op = dc.operands[i];
        match lookup_cell(m, op) {
            Some(x) => {
                ops.push(x);
                assert(ops@ =~= dc.operands@.take(i + 1).map_values(|o: CellId| assoc_cell(m@, o)->0));
            },
            None => {
                assert(first_unbound(m@, dc.operands@, i as int) == Some(op));
                let mut e = String::new();
                push_str(&mut e, "graft: operand ");
                let t = op.to_text();
                push_str(&mut e, t.as_str());
                push_str(&mut e, " of donor cell ");
                let u = did.to_text();
                push_str(&mut e, u.as_str());
                push_str(&mut e, " is unmapped (bind params / graft dependencies first)");
                return Err(e);
            },
        }
        i = i + 1;
    }
    assert(dc.operands@.take(dc.operands@.len() as int) =~= dc.operands@);
    let kind = match &dc.kind {
        CellKind::Branch { then_r, else_r } => {
            let t = match lookup_region(rm, then_r.0) {
                Some(t) => t,
                None => return Err(msg_with_name("graft: branch target '", donor, *then_r, "' unmapped")),
            };
            let e = match lookup_region(rm, else_r.0) {
                Some(e) => e,
                None => return Err(msg_with_name("graft: branch target '", donor, *else_r, "' unmapped")),
            };
            CellKind::Branch { then_r: t, else_r: e }
        },
        CellKind::Jump { target } => {
            match lookup_region(rm, target.0) {
                Some(t) => CellKind::Jump { target: t },
                None => return Err(msg_with_name("graft: jump target '", donor, *target, "' unmapped")),
            }
        },
        CellKind::Phi { joins } => {
            let mut js: Vec<RegionId> = Vec::new();
            let mut k: usize = 0;
            while k < joins.len()
                invariant
                    k <= joins@.len(),
                    cell_at(*donor, did.0 as int) == Some(dc@),
                    dc@.kind == (KindV::Phi { joins: joins@ }),
                    first_unbound(m@, dc@.operands, 0) is None,
                    first_unbound_join(rm@, joins@, 0) == first_unbound_join(rm@, joins@, k as int),
                    js@ == joins@.take(k as int).map_values(|j: RegionId| assoc_region(rm@, j.0)->0),
                decreases joins@.len() - k,
            {
                match lookup_region(rm, joins[k].0) {
                    Some(x) => {
                        js.push(x);
                        assert(js@ =~= joins@.take(k + 1).map_values(|j: RegionId| assoc_region(rm@, j.0)->0));
                    },
                    None => {
                        assert(first_unbound_join(rm@, joins@, k as int) == Some(joins@[k as int]));
                        return Err(msg_with_name("graft: phi join '", donor, joins[k], "' unmapped"));
                    },
                }
                k = k + 1;
            }
            assert(joins@.take(joins@.len() as int) =~= joins@);
            CellKind::Phi { joins: js }
        },
        CellKind::Param { .. } => {
            let mut e = String::new();
            push_str(&mut e, "graft: param ");
            let t = did.to_text();
            push_str(&mut e, t.as_str());
            push_str(&mut e, " in a non-entry donor region \u{2014} V12 makes it ungraftable (bind it to a value first)");
            return Err(e);
        },
        _ => dc.kind.copy(),
    };
    Ok(Cell { region: dest, kind, operands: ops })
}


/// Once a prefix of the graft fails, every longer prefix fails the same way.
proof fn lemma_graft_prefix_err(
    donor: Fabric,
    list: Seq<CellId>,
    cm: Seq<(CellId, CellId)>,
    rm: Seq<(u32, RegionId)>,
    dest: RegionId,
    base: int,
    k: int,
    n: int,
)
    requires
        0 <= k <= n,
        graft_prefix(donor, list, cm, rm, dest, base, k) is Err,
    ensures
        graft_prefix(donor, list, cm, rm, dest, base, n) == graft_prefix(donor, list, cm, rm, dest, base, k),
    decreases n - k,
{
    if k < n {
        lemma_graft_prefix_err(donor, list, cm, rm, dest, base, k, n - 1);
    }
}

/// Every donor cell in `list` has an operand count that a slot number can index.
pub open spec fn operands_fit(donor: Fabric, list: Seq<CellId>) -> bool {
    forall|j: int| 0 <= j < list.len() && #[trigger] cell_at(donor, list[j].0 as int) is Some
        ==> cell_at(donor, list[j].0 as int)->0.operands.len() <= u32::MAX
}

/// The note that a graft leaves in its record.
pub open spec fn graft_note(donor_name: Seq<char>, name: Seq<char>) -> Seq<char> {
    "region '"@ + donor_name + "' grafted as '"@ + name
        + "' \u{2014} RegionAdded inexpressible; cells carried as AddCell edits"@
}

fn copy_pairs(m: &Vec<(CellId, CellId)>) -> (c: Vec<(CellId, CellId)>)
    ensures
        c@ == m@,
{
    let mut c: Vec<(CellId, CellId)> = Vec::new();
    let mut i: usize = 0;
    while i < m.len()
        invariant
            i <= m@.len(),
            c@ == m@.take(i as int),
        decreases m@.len() - i,
    {
        c.push(m[i]);
        i = i + 1;
        assert(c@ =~= m@.take(i as int));
    }
    assert(m@.take(m@.len() as int) =~= m@);
    c
}

/// Grafting into `f` keeps it well formed: `f` is well formed with room
/// for one more table row, its operands name ids inside its slab, and
/// every cell binding maps to an id of `f`.
pub open spec fn graft_keeps_wf(f: Fabric, cell_map: Seq<(CellId, CellId)>) -> bool {
    &&& f.wf()
    &&& f.regions@.len() < crate::usetables::ROW_GROW_LIMIT
    &&& crate::constfold::operands_in_slab(f)
    &&& forall|i: int| 0 <= i < cell_map.len() ==> (#[trigger] cell_map[i]).1.0 < f.slab@.len()
}

proof fn lemma_assoc_cell_in(m: Seq<(CellId, CellId)>, k: CellId)
    requires
        assoc_cell(m, k) is Some,
    ensures
        exists|i: int| 0 <= i < m.len() && (#[trigger] m[i]).1 == assoc_cell(m, k)->0,
    decreases m.len(),
{
    if m.last().0 != k {
        lemma_assoc_cell_in(m.drop_last(), k);
        let i = choose|i: int| 0 <= i < m.drop_last().len() && (#[trigger] m.drop_last()[i]).1 == assoc_cell(m, k)->0;
        assert(m[i] == m.drop_last()[i]);
    } else {
        assert(m[m.len() - 1].1 == assoc_cell(m, k)->0);
    }
}

proof fn lemma_first_unbound_none(m: Seq<(CellId, CellId)>, ops: Seq<CellId>, i: int)
    requires
        0 <= i <= ops.len(),
        first_unbound(m, ops, i) is None,
    ensures
        forall|k: int| i <= k < ops.len() ==> assoc_cell(m, #[trigger] ops[k]) is Some,
    decreases ops.len() - i,
{
    if i < ops.len() {
        lemma_first_unbound_none(m, ops, i + 1);
    }
}

/// The operands of a grafted cell are values of the bindings.
proof fn lemma_graft_operands(donor: Fabric, did: CellId, m: Seq<(CellId, CellId)>, rm: Seq<(u32, RegionId)>, dest: RegionId, bound: int)
    requires
        graft_cell(donor, did, m, rm, dest) is Ok,
        forall|i: int| 0 <= i < m.len() ==> (#[trigger] m[i]).1.0 < bound,
    ensures
        forall|k: int| 0 <= k < graft_cell(donor, did, m, rm, dest)->Ok_0.operands.len() ==> (#[trigger] graft_cell(donor, did, m, rm, dest)->Ok_0.operands[k]).0 < bound,
{
    let dc = cell_at(donor, did.0 as int)->0;
    lemma_first_unbound_none(m, dc.operands, 0);
    let c = graft_cell(donor, did, m, rm, dest)->Ok_0;
    assert forall|k: int| 0 <= k < c.operands.len() implies (#[trigger] c.operands[k]).0 < bound by {
        assert(assoc_cell(m, dc.operands[k]) is Some);
        lemma_assoc_cell_in(m, dc.operands[k]);
        let i = choose|i: int| 0 <= i < m.len() && (#[trigger] m[i]).1 == assoc_cell(m, dc.operands[k])->0;
        assert(m[i].1.0 < bound);
    }
}

proof fn lemma_first_unbound_join_none(rm: Seq<(u32, RegionId)>, joins: Seq<RegionId>, i: int)
    requires
        0 <= i <= joins.len(),
        first_unbound_join(rm, joins, i) is None,
    ensures
        forall|k: int| i <= k < joins.len() ==> assoc_region(rm, (#[trigger] joins[k]).0) is Some,
    decreases joins.len() - i,
{
    if i < joins.len() {
        lemma_first_unbound_join_none(rm, joins, i + 1);
    }
}

/// A grafted cell is its donor cell carried into region `dest`: each
/// operand becomes its binding under `m`, in order; a branch's then
/// target becomes the binding of the donor's then target and its else
/// target the binding of the donor's else target; a jump's target and
/// each phi join, in order, become their bindings under `rm`; any other
/// kind but a parameter is kept as it is.
pub proof fn lemma_graft_cell_copies(donor: Fabric, did: CellId, m: Seq<(CellId, CellId)>, rm: Seq<(u32, RegionId)>, dest: RegionId)
    requires
        graft_cell(donor, did, m, rm, dest) is Ok,
    ensures
        ({
            let dc = cell_at(donor, did.0 as int)->0;
            let c = graft_cell(donor, did, m, rm, dest)->Ok_0;
            &&& cell_at(donor, did.0 as int) is Some
            &&& c.region == dest
            &&& c.operands.len() == dc.operands.len()
            &&& forall|k: int| 0 <= k < dc.operands.len() ==> assoc_cell(m, dc.operands[k]) == Some(#[trigger] c.operands[k])
            &&& match dc.kind {
                KindV::Branch { then_r, else_r } => {
                    &&& assoc_region(rm, then_r.0) is Some
                    &&& assoc_region(rm, else_r.0) is Some
                    &&& c.kind == KindV::Branch {
                        then_r: assoc_region(rm, then_r.0)->0,
                        else_r: assoc_region(rm, else_r.0)->0,
                    }
                },
                KindV::Jump { target } => c.kind matches KindV::Jump { target: t } && assoc_region(rm, target.0) == Some(t),
                KindV::Phi { joins } => c.kind matches KindV::Phi { joins: cj } && cj.len() == joins.len() && forall|k: int|
                    0 <= k < joins.len() ==> assoc_region(rm, joins[k].0) == Some(#[trigger] cj[k]),
                KindV::Param { .. } => false,
                _ => c.kind == dc.kind,
            }
        }),
{
    let dc = cell_at(donor, did.0 as int)->0;
    lemma_first_unbound_none(m, dc.operands, 0);
    if let KindV::Phi { joins } = dc.kind {
        lemma_first_unbound_join_none(rm, joins, 0);
    }
}

/// The grafted copies of the first `n` donor cells are, one for one and
/// in order, the grafts of those cells under the bindings in force at
/// each: the given ones and the copies made before it.
pub proof fn lemma_graft_prefix_copies(
    donor: Fabric,
    list: Seq<CellId>,
    cm: Seq<(CellId, CellId)>,
    rm: Seq<(u32, RegionId)>,
    dest: RegionId,
    base: int,
    n: int,
)
    requires
        0 <= n <= list.len(),
        graft_prefix(donor, list, cm, rm, dest, base, n) is Ok,
    ensures
        graft_prefix(donor, list, cm, rm, dest, base, n)->Ok_0.len() == n,
        forall|j: int| 0 <= j < n ==> (graft_cell(donor, #[trigger] list[j], graft_map(cm, list, base, j), rm, dest) matches Ok(
            c) && c == graft_prefix(donor, list, cm, rm, dest, base, n)->Ok_0[j]),
    decreases n,
{
    if n > 0 {
        lemma_graft_prefix_copies(donor, list, cm, rm, dest, base, n - 1);
    }
}

/// While grafting, a donor cell copied earlier is bound to its copy: at
/// donor cell `k`, the binding of donor cell `list[j]` (`j < k`, not
/// listed again between `j` and `k`) is the fresh id `base + j`, whatever
/// the given bindings say of it.
pub proof fn lemma_graft_binds_copies(cm: Seq<(CellId, CellId)>, list: Seq<CellId>, base: int, j: int, k: int)
    requires
        0 <= j < k <= list.len(),
        forall|i: int| j < i < k ==> list[i] != list[j],
    ensures
        assoc_cell(graft_map(cm, list, base, k), list[j]) == Some(CellId((base + j) as u32)),
    decreases k,
{
    let m = graft_map(cm, list, base, k);
    assert(m.last() == (list[k - 1], CellId((base + k - 1) as u32)));
    if k - 1 != j {
        assert(m.drop_last() =~= graft_map(cm, list, base, k - 1));
        lemma_graft_binds_copies(cm, list, base, j, k - 1);
    }
}

/// In a graft, the copy of a donor branch goes where the region bindings
/// send the donor's own arms: its then target is the binding of the
/// donor's then target, its else target the binding of the donor's else
/// target.
pub proof fn lemma_graft_keeps_arms(
    donor: Fabric,
    list: Seq<CellId>,
    cm: Seq<(CellId, CellId)>,
    rm: Seq<(u32, RegionId)>,
    dest: RegionId,
    base: int,
    j: int,
)
    requires
        0 <= j < list.len(),
        graft_prefix(donor, list, cm, rm, dest, base, list.len() as int) is Ok,
        cell_at(donor, list[j].0 as int) matches Some(dc) && dc.kind is Branch,
    ensures
        ({
            let dk = cell_at(donor, list[j].0 as int)->0.kind;
            let ck = graft_prefix(donor, list, cm, rm, dest, base, list.len() as int)->Ok_0[j].kind;
            ck == KindV::Branch {
                then_r: assoc_region(rm, dk->then_r.0)->0,
                else_r: assoc_region(rm, dk->else_r.0)->0,
            }
        }),
{
    lemma_graft_prefix_copies(donor, list, cm, rm, dest, base, list.len() as int);
    assert(graft_cell(donor, list[j], graft_map(cm, list, base, j), rm, dest) is Ok);
    lemma_graft_cell_copies(donor, list[j], graft_map(cm, list, base, j), rm, dest);
}

/// Graft `donor_region` of `donor` into a copy of `f` as a new region
/// named `name`. Its cells are copied in order under fresh ids; operands
/// are remapped through `cell_map` (and through the copies already made),
/// terminator targets and phi joins through `region_map`; in both lists
/// the last binding of a key wins. Every copied cell is recorded as an
/// AddCell edit; the new region itself only as a note. The result is not
/// checked for well-formedness: the caller composes grafts.
pub fn region_graft(
    f: &Fabric,
    donor: &Fabric,
    donor_region: RegionId,
    cell_map: &Vec<(CellId, CellId)>,
    region_map: &[(u32, RegionId)],
    name: &str,
) -> (r: Result<(Fabric, RegionId, DiffRecord), String>)
    requires
        f.slab@.len() + donor_list(*donor, donor_region).len() < u32::MAX,
        f.regions@.len() < u32::MAX,
        operands_fit(*donor, donor_list(*donor, donor_region)),
    ensures
        ({
            let list = donor_list(*donor, donor_region);
            let dest = RegionId(f.regions@.len() as u32);
            let base = f.slab@.len() as int;
            match (r, graft_prefix(*donor, list, cell_map@, region_map@, dest, base, list.len() as int)) {
                (Err(e), Err(s)) => e@ == s,
                (Ok((g, nr, rec)), Ok(cs)) => {
                    &&& graft_keeps_wf(*f, cell_map@) ==> g.wf()
                    &&& nr == dest
                    &&& g.regions@.len() == f.regions@.len() + 1
                    &&& forall|i: int| 0 <= i < f.regions@.len() ==> (#[trigger] g.regions@[i]).name@ == f.regions@[i].name@
                        && g.regions@[i].cells@ == f.regions@[i].cells@
                    &&& g.regions@[dest.0 as int].name@ == name@
                    &&& g.regions@[dest.0 as int].cells@ == Seq::new(list.len(), |j: int| CellId((base + j) as u32))
                    &&& g.slab@.len() == base + list.len()
                    &&& forall|i: int| 0 <= i < base ==> #[trigger] cell_at(g, i) == cell_at(*f, i)
                    &&& forall|j: int| 0 <= j < list.len() ==> #[trigger] cell_at(g, base + j) == Some(cs[j])
                    &&& rec.pass@ == "region-graft"@
                    &&& rec.epoch == 0
                    &&& rec.notes@.len() == 1
                    &&& rec.notes@[0]@ == graft_note(region_text(*donor, donor_region), name@)
                    &&& rec.edits@.len() == list.len()
                    &&& forall|j: int| 0 <= j < list.len() ==> (#[trigger] rec.edits@[j] matches Edit::AddCell { id, index, cell }
                        && id == CellId((base + j) as u32) && index == j && cell@ == cs[j])
                },
                _ => false,
            }
        }),
{
    let ghost list = donor_list(*donor, donor_region);
    let mut g = f.copy();
    let ghost g0 = g;
    let dest = g.add_region(name);
    let mut rec = DiffRecord::new("region-graft");
    let mut note = String::new();
    push_str(&mut note, "region '");
    push_str(&mut note, donor.region_name(donor_region));
    push_str(&mut note, "' grafted as '");
    push_str(&mut note, name);
    push_str(&mut note, "' \u{2014} RegionAdded inexpressible; cells carried as AddCell edits");
    rec.notes.push(note);
    let src: Vec<CellId> = if (donor_region.0 as usize) < donor.regions.len() {
        crate::cell::copy_ids(&donor.regions[donor_region.0 as usize].cells)
    } else {
        Vec::new()
    };
    let mut local = copy_pairs(cell_map);
    let base = g.slab.len();
    proof {
        assert(local@ =~= graft_map(cell_map@, list, base as int, 0));
        assert forall|i: int| 0 <= i < base implies #[trigger] cell_at(g, i) == cell_at(*f, i) by {
            assert(same_content(*f, g0));
        }
        assert forall|i: int| 0 <= i < f.regions@.len() implies (#[trigger] g.regions@[i]).name@ == f.regions@[i].name@
            && g.regions@[i].cells@ == f.regions@[i].cells@ by {
            assert(same_content(*f, g0));
            assert(g.regions@[i] == g0.regions@[i]);
        }
        assert(g.regions@[dest.0 as int].cells@ =~= Seq::new(0, |j: int| CellId((base + j) as u32)));
        if graft_keeps_wf(*f, cell_map@) {
            assert forall|i: int, k: int| #[trigger] cell_at(g, i) is Some && 0 <= k < cell_at(g, i)->0.operands.len()
                implies (#[trigger] cell_at(g, i)->0.operands[k]).0 < g.slab@.len() by {
                assert(cell_at(g, i) == cell_at(*f, i));
                assert(cell_at(*f, i)->0.operands[k] == cell_at(g, i)->0.operands[k]);
            }
            assert forall|i: int| 0 <= i < local@.len() implies (#[trigger] local@[i]).1.0 < g.slab@.len() by {
                assert(local@[i] == cell_map@[i]);
            }
        }
    }
    let mut j: usize = 0;
    while j < src.len()
        invariant
            j <= src@.len(),
            src@ == list,
            list == donor_list(*donor, donor_region),
            base == f.slab@.len(),
            base + list.len() < u32::MAX,
            operands_fit(*donor, list),
            dest == RegionId(f.regions@.len() as u32),
            f.regions@.len() < u32::MAX,
            local@ == graft_map(cell_map@, list, base as int, j as int),
            graft_keeps_wf(*f, cell_map@) ==> (g.wf() && crate::constfold::operands_in_slab(g) && forall|i: int|
                0 <= i < local@.len() ==> (#[trigger] local@[i]).1.0 < g.slab@.len()),
            graft_prefix(*donor, list, cell_map@, region_map@, dest, base as int, j as int) is Ok,
            graft_prefix(*donor, list, cell_map@, region_map@, dest, base as int, j as int)->Ok_0.len() == j,
            g.slab@.len() == base + j,
            g.regions@.len() == f.regions@.len() + 1,
            forall|i: int| 0 <= i < f.regions@.len() ==> (#[trigger] g.regions@[i]).name@ == f.regions@[i].name@
                && g.regions@[i].cells@ == f.regions@[i].cells@,
            g.regions@[dest.0 as int].name@ == name@,
            g.regions@[dest.0 as int].cells@ == Seq::new(j as nat, |k: int| CellId((base + k) as u32)),
            forall|i: int| 0 <= i < base ==> #[trigger] cell_at(g, i) == cell_at(*f, i),
            forall|k: int| 0 <= k < j ==> #[trigger] cell_at(g, base + k)
                == Some(graft_prefix(*donor, list, cell_map@, region_map@, dest, base as int, j as int)->Ok_0[k]),
            rec.pass@ == "region-graft"@,
            rec.epoch == 0,
            rec.notes@.len() == 1,
            rec.notes@[0]@ == graft_note(region_text(*donor, donor_region), name@),
            rec.edits@.len() == j,
            forall|k: int| 0 <= k < j ==> (#[trigger] rec.edits@[k] matches Edit::AddCell { id, index, cell }
                && id == CellId((base + k) as u32) && index == k
                && cell@ == graft_prefix(*donor, list, cell_map@, region_map@, dest, base as int, j as int)->Ok_0[k]),
        decreases src@.len() - j,
    {
        let ghost cs = graft_prefix(*donor, list, cell_map@, region_map@, dest, base as int, j as int)->Ok_0;
        let did = src[j];
        let c = match graft_one(donor, did, &local, region_map, dest) {
            Ok(c) => c,
            Err(e) => {
                proof {
                    lemma_graft_prefix_err(*donor, list, cell_map@, region_map@, dest, base as int, j + 1, list.len() as int);
                }
                return Err(e);
            },
        };
        let ghost cs1 = cs.push(c@);
        assert(graft_prefix(*donor, list, cell_map@, region_map@, dest, base as int, j + 1) == Ok::<Seq<CellV>, Seq<char>>(cs1));
        let ghost gb = g;
        let ghost lb = local@;
        proof {
            if graft_keeps_wf(*f, cell_map@) {
                lemma_graft_operands(*donor, did, local@, region_map@, dest, g.slab@.len() as int);
                assert(!crate::fabric::refers_into(g, g.slab@.len() as int, g.slab@.len() as int + 1));
            }
        }
        let kept = c.copy();
        let id = g.add_cell(dest, c);
        rec.edits.push(Edit::AddCell { id, index: j, cell: kept });
        local.push((did, id));
        j = j + 1;
        proof {
            if graft_keeps_wf(*f, cell_map@) {
                assert forall|i: int, k: int| #[trigger] cell_at(g, i) is Some && 0 <= k < cell_at(g, i)->0.operands.len()
                    implies (#[trigger] cell_at(g, i)->0.operands[k]).0 < g.slab@.len() by {
                    if i < gb.slab@.len() {
                        assert(cell_at(g, i) == cell_at(gb, i));
                    }
                }
                assert forall|i: int| 0 <= i < local@.len() implies (#[trigger] local@[i]).1.0 < g.slab@.len() by {
                    if i < lb.len() {
                        assert(local@[i] == lb[i]);
                    }
                }
            }
            assert(local@ =~= graft_map(cell_map@, list, base as int, j as int));
            assert(g.regions@[dest.0 as int].cells@ =~= Seq::new(j as nat, |k: int| CellId((base + k) as u32)));
            assert forall|i: int| 0 <= i < f.regions@.len() implies (#[trigger] g.regions@[i]).name@ == f.regions@[i].name@
                && g.regions@[i].cells@ == f.regions@[i].cells@ by {
                assert(g.regions@[i] == gb.regions@[i]);
            }
            assert forall|i: int| 0 <= i < base implies #[trigger] cell_at(g, i) == cell_at(*f, i) by {
                assert(cell_at(g, i) == cell_at(gb, i));
            }
            assert forall|k: int| 0 <= k < j implies #[trigger] cell_at(g, base + k) == Some(cs1[k]) by {
                if k < j - 1 {
                    assert(cell_at(g, base + k) == cell_at(gb, base + k));
                }
            }
            assert forall|k: int| 0 <= k < j implies (#[trigger] rec.edits@[k] matches Edit::AddCell { id, index, cell }
                && id == CellId((base + k) as u32) && index == k && cell@ == cs1[k]) by {
            }
        }
    }
    proof {
        assert(graft_prefix(*donor, list, cell_map@, region_map@, dest, base as int, list.len() as int) is Ok);
    }
    Ok((g, dest, rec))
}

} // verus!
