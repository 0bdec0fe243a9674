//! Control wires: one edge per (terminator, successor region), and the
//! backward control closure of a region.

use vstd::prelude::*;
use crate::cell::kind_is_terminator;
use crate::fabric::{Fabric, cell_at};
use crate::order::lemma_swap_keeps;
use crate::id::{CellId, RegionId};
use crate::order::{ascending, lemma_u32_distinct_bound, sort_ids};
use crate::region::contains_id;
use crate::usetables::row_at;

verus! {

/// Terminator `term` (in some region) routes control into region
/// `gated`. Terminators are the only sources of control wires.
#[derive(Clone, Copy, PartialEq, Eq, Debug, Structural)]
pub struct CtrlEdge {
    pub term: CellId,
    pub gated: RegionId,
}

/// Region `b` is listed as a predecessor of region `a` in the tables.
pub open spec fn pred_edge(f: Fabric, a: u32, b: u32) -> bool {
    row_at(f.tables.preds@, a as int).contains(RegionId(b))
}

/// `p` is a walk backwards along control edges.
pub open spec fn is_pred_walk(f: Fabric, p: Seq<u32>) -> bool {
    &&& p.len() >= 1
    &&& forall|i: int| 0 <= i < p.len() - 1 ==> #[trigger] pred_edge(f, p[i], p[i + 1])
}

/// Control flows from region `x` into region `target` along a path of
/// at least one edge.
pub open spec fn gates(f: Fabric, target: u32, x: u32) -> bool {
    exists|p: Seq<u32>| #[trigger] is_pred_walk(f, p) && p.len() >= 2 && p[0] == target && p.last() == x
}

proof fn lemma_gate_step(f: Fabric, target: u32, r: u32, s: u32)
    requires
        r == target || gates(f, target, r),
        pred_edge(f, r, s),
    ensures
        gates(f, target, s),
{
    if r == target {
        let q = seq![target, s];
        let z: int = 0;
        assert(pred_edge(f, q[z], q[z + 1]));
        assert(is_pred_walk(f, q));
    } else {
        let p = choose|p: Seq<u32>| #[trigger] is_pred_walk(f, p) && p.len() >= 2 && p[0] == target && p.last() == r;
        let q = p.push(s);
        assert forall|i: int| 0 <= i < q.len() - 1 implies #[trigger] pred_edge(f, q[i], q[i + 1]) by {
            if i < p.len() - 1 {
                assert(pred_edge(f, p[i], p[i + 1]));
            }
        }
        assert(is_pred_walk(f, q));
    }
}

proof fn lemma_closed_holds_pred_walk(f: Fabric, s: Seq<u32>, target: u32, p: Seq<u32>, k: int)
    requires
        is_pred_walk(f, p),
        p[0] == target,
        forall|x: u32, y: u32| (s.contains(x) || x == target) && #[trigger] pred_edge(f, x, y) ==> s.contains(y),
        1 <= k < p.len(),
    ensures
        s.contains(p[k]),
    decreases k,
{
    if k > 1 {
        lemma_closed_holds_pred_walk(f, s, target, p, k - 1);
    }
    let i = k - 1;
    assert(pred_edge(f, p[i], p[i + 1]));
}

/// Regions from which `target` is reachable along a path of at least one
/// control edge: the regions whose terminators gate control flow into
/// `target`. `target` itself is included exactly when it lies on a
/// cycle. Ascending by id.
pub fn controlling_regions(f: &Fabric, target: RegionId) -> (out: Vec<RegionId>)
    ensures
        forall|i: int, j: int| 0 <= i < j < out@.len() ==> out@[i].0 < out@[j].0,
        forall|x: RegionId| #[trigger] out@.contains(x) <==> gates(*f, target.0, x.0),
{
    let mut seen: Vec<u32> = Vec::new();
    let mut work: Vec<u32> = Vec::new();
    work.push(target.0);
    assert(work@[0] == target.0);
    while work.len() > 0
        invariant
            seen@.no_duplicates(),
            forall|x: u32| #[trigger] seen@.contains(x) ==> gates(*f, target.0, x),
            forall|x: u32| #[trigger] work@.contains(x) ==> seen@.contains(x) || x == target.0,
            forall|x: u32, y: u32| (seen@.contains(x) || x == target.0) && #[trigger] pred_edge(*f, x, y)
                ==> work@.contains(x) || seen@.contains(y),
        decreases 0x1_0000_0000 - seen@.len(), work@.len(),
    {
        proof { lemma_u32_distinct_bound(seen@); }
        let ghost work_before = work@;
        let r = work.pop().unwrap();
        let ghost work_after = work@;
        proof {
            assert(work_before == work@.push(r));
            assert(work_before[work_before.len() - 1] == r);
            assert(work_before.contains(r));
            assert forall|x: u32| #[trigger] work@.contains(x) implies seen@.contains(x) || x == target.0 by {
                let i = choose|i: int| 0 <= i < work@.len() && work@[i] == x;
                assert(work_before[i] == x);
                assert(work_before.contains(x));
            }
            assert forall|x: u32, y: u32| (seen@.contains(x) || x == target.0) && #[trigger] pred_edge(*f, x, y)
                implies x == r || work@.contains(x) || seen@.contains(y) by {
                if work_before.contains(x) && x != r {
                    let i = choose|i: int| 0 <= i < work_before.len() && work_before[i] == x;
                    assert(work@[i] == x);
                }
            }
        }
        let preds = f.predecessors(RegionId(r));
        let ghost seen0 = seen@;
        let mut j: usize = 0;
        while j < preds.len()
            invariant
                preds@ == row_at(f.tables.preds@, r as int),
                j <= preds@.len(),
                seen@.no_duplicates(),
                seen0.contains(r) || r == target.0,
                seen0.len() <= seen@.len(),
                forall|x: u32| #[trigger] seen0.contains(x) ==> seen@.contains(x),
                forall|x: u32| #[trigger] seen@.contains(x) ==> gates(*f, target.0, x),
                forall|x: u32| #[trigger] work@.contains(x) ==> seen@.contains(x) || x == target.0,
                forall|k: int| 0 <= k < j ==> seen@.contains(#[trigger] preds@[k].0),
                forall|x: u32, y: u32| (seen@.contains(x) || x == target.0) && #[trigger] pred_edge(*f, x, y)
                    ==> x == r || work@.contains(x) || seen@.contains(y),
                work@.len() >= work_after.len(),
                seen@.len() - seen0.len() == work@.len() - work_after.len(),
            decreases preds@.len() - j,
        {
            let p = preds[j].0;
            if !contains_id(&seen, p) {
                proof {
                    assert(pred_edge(*f, r, p)) by {
                        assert(preds@[j as int] == RegionId(p));
                    }
                    if r != target.0 {
                        assert(seen@.contains(r));
                    }
                    lemma_gate_step(*f, target.0, r, p);
                }
                let ghost seen_before = seen@;
                let ghost work_before_push = work@;
                seen.push(p);
                work.push(p);
                proof {
                    assert(seen@[seen@.len() - 1] == p);
                    assert(work@[work@.len() - 1] == p);
                    assert forall|x: u32| #[trigger] seen_before.contains(x) implies seen@.contains(x) by {
                        let i = choose|i: int| 0 <= i < seen_before.len() && seen_before[i] == x;
                        assert(seen@[i] == x);
                    }
                    assert forall|x: u32| #[trigger] work_before_push.contains(x) implies work@.contains(x) by {
                        let i = choose|i: int| 0 <= i < work_before_push.len() && work_before_push[i] == x;
                        assert(work@[i] == x);
                    }
                    assert forall|x: u32| #[trigger] seen@.contains(x) implies x == p || seen_before.contains(x) by {
                        let i = choose|i: int| 0 <= i < seen@.len() && seen@[i] == x;
                        if i < seen_before.len() {
                            assert(seen_before[i] == x);
                        }
                    }
                    assert forall|x: u32| #[trigger] work@.contains(x) implies x == p || work_before_push.contains(x) by {
                        let i = choose|i: int| 0 <= i < work@.len() && work@[i] == x;
                        if i < work_before_push.len() {
                            assert(work_before_push[i] == x);
                        }
                    }
                }
            }
            j = j + 1;
        }
        proof {
            lemma_u32_distinct_bound(seen@);
            assert forall|x: u32, y: u32| (seen@.contains(x) || x == target.0) && #[trigger] pred_edge(*f, x, y)
                implies work@.contains(x) || seen@.contains(y) by {
                if x == r {
                    let k = choose|k: int| 0 <= k < preds@.len() && preds@[k] == RegionId(y);
                    assert(seen@.contains(preds@[k].0));
                }
            }
        }
    }
    proof {
        assert forall|x: u32| gates(*f, target.0, x) implies #[trigger] seen@.contains(x) by {
            let p = choose|p: Seq<u32>| #[trigger] is_pred_walk(*f, p) && p.len() >= 2 && p[0] == target.0 && p.last() == x;
            lemma_closed_holds_pred_walk(*f, seen@, target.0, p, p.len() - 1);
        }
    }
    let ghost before = seen@;
    sort_ids(&mut seen);
    proof {
        assert forall|x: u32| #[trigger] seen@.contains(x) <==> before.contains(x) by {
            assert(seen@.to_multiset().count(x) == before.to_multiset().count(x));
            vstd::seq_lib::to_multiset_contains(seen@, x);
            vstd::seq_lib::to_multiset_contains(before, x);
        }
    }
    let mut out: Vec<RegionId> = Vec::new();
    let mut i: usize = 0;
    while i < seen.len()
        invariant
            i <= seen@.len(),
            out@.len() == i,
            forall|k: int| 0 <= k < i ==> #[trigger] out@[k] == RegionId(seen@[k]),
        decreases seen@.len() - i,
    {
        out.push(RegionId(seen[i]));
        i = i + 1;
    }
    proof {
        assert forall|x: RegionId| #[trigger] out@.contains(x) <==> gates(*f, target.0, x.0) by {
            if out@.contains(x) {
                let k = choose|k: int| 0 <= k < out@.len() && out@[k] == x;
                assert(seen@[k] == x.0);
                assert(seen@.contains(x.0));
            }
            if gates(*f, target.0, x.0) {
                assert(seen@.contains(x.0));
                let k = choose|k: int| 0 <= k < seen@.len() && seen@[k] == x.0;
                assert(out@[k] == x);
            }
        }
        assert forall|a: int, b: int| 0 <= a < b < out@.len() implies out@[a].0 < out@[b].0 by {
            assert(out@[a] == RegionId(seen@[a]));
            assert(out@[b] == RegionId(seen@[b]));
        }
    }
    out
}

/// The last cell of region `r`, when it is present and a terminator.
pub open spec fn region_term(f: Fabric, r: int) -> Option<CellId> {
    if 0 <= r < f.regions@.len() {
        let cells = f.regions@[r].cells@;
        if cells.len() > 0 && cell_at(f, cells.last().0 as int) is Some && kind_is_terminator(
            cell_at(f, cells.last().0 as int)->0.kind,
        ) {
            Some(cells.last())
        } else {
            None
        }
    } else {
        None
    }
}

/// The control edges leaving region `r`: its terminator paired with each
/// successor, in table order.
pub open spec fn edges_of(f: Fabric, r: int) -> Seq<CtrlEdge> {
    match region_term(f, r) {
        Some(t) => row_at(f.tables.succs@, r).map_values(|s: RegionId| CtrlEdge { term: t, gated: s }),
        None => Seq::empty(),
    }
}

/// The control edges of regions `0..n`, region by region.
pub open spec fn all_edges(f: Fabric, n: int) -> Seq<CtrlEdge>
    decreases n,
{
    if n <= 0 {
        Seq::empty()
    } else {
        all_edges(f, n - 1) + edges_of(f, n - 1)
    }
}

/// Edge order: by gated region, then by terminator.
pub open spec fn edge_le(a: CtrlEdge, b: CtrlEdge) -> bool {
    a.gated.0 < b.gated.0 || (a.gated.0 == b.gated.0 && a.term.0 <= b.term.0)
}

/// The terminator of region `r`, as `region_term` says.
pub fn terminator_of(f: &Fabric, r: RegionId) -> (t: Option<CellId>)
    ensures
        t == region_term(*f, r.0 as int),
{
    if let Some(region) = f.region(r) {
        let n = region.cells.len();
        if n > 0 {
            let last = region.cells[n - 1];
            if let Some(c) = f.cell(last) {
                if c.is_terminator() {
                    return Some(last);
                }
            }
        }
    }
    None
}

/// Sort edges by gated region, then terminator.
fn sort_edges(v: &mut Vec<CtrlEdge>)
    ensures
        final(v)@.to_multiset() == old(v)@.to_multiset(),
        forall|a: int, b: int| 0 <= a < b < final(v)@.len() ==> edge_le(final(v)@[a], final(v)@[b]),
{
    let n = v.len();
    let mut i: usize = 1;
    if n == 0 {
        return;
    }
    while i < n
        invariant
            n == v@.len(),
            1 <= i <= n,
            v@.to_multiset() == old(v)@.to_multiset(),
            forall|a: int, b: int| 0 <= a < b < i ==> edge_le(v@[a], v@[b]),
        decreases n - i,
    {
        let mut j = i;
        while j > 0 && (v[j - 1].gated.0 > v[j].gated.0 || (v[j - 1].gated.0 == v[j].gated.0 && v[j - 1].term.0
            > v[j].term.0))
            invariant
                n == v@.len(),
                0 <= j <= i < n,
                v@.to_multiset() == old(v)@.to_multiset(),
                forall|a: int, b: int| 0 <= a < b <= i && a != j && b != j ==> edge_le(v@[a], v@[b]),
                forall|b: int| j < b <= i ==> edge_le(v@[j as int], v@[b]) && !edge_le(v@[b], v@[j as int]),
            decreases j,
        {
            let ghost s = v@;
            let x = v[j - 1];
            let y = v[j];
            v.set(j - 1, y);
            v.set(j, x);
            proof {
                lemma_swap_keeps(s, j - 1, j as int);
                assert(v@ == s.update(j - 1, s[j as int]).update(j as int, s[j - 1]));
            }
            j = j - 1;
        }
        assert forall|a: int, b: int| 0 <= a < b <= i implies edge_le(v@[a], v@[b]) by {
            if b == j && a != j {
                if a < j - 1 {
                    assert(edge_le(v@[a], v@[j - 1]));
                }
            }
        }
        i = i + 1;
    }
}

/// All control edges, ordered by gated region, then terminator.
pub fn ctrl_edges(f: &Fabric) -> (out: Vec<CtrlEdge>)
    requires
        f.regions@.len() < u32::MAX,
    ensures
        out@.to_multiset() == all_edges(*f, f.regions@.len() as int).to_multiset(),
        forall|a: int, b: int| 0 <= a < b < out@.len() ==> edge_le(out@[a], out@[b]),
{
    let mut out: Vec<CtrlEdge> = Vec::new();
    let n = f.regions.len();
    let mut ri: usize = 0;
    while ri < n
        invariant
            n == f.regions@.len(),
            n < u32::MAX,
            ri <= n,
            out@ == all_edges(*f, ri as int),
        decreases n - ri,
    {
        let r = RegionId(ri as u32);
        let succ = f.successors(r);
        match terminator_of(f, r) {
            Some(term) => {
                let ghost base = out@;
                let mut j: usize = 0;
                while j < succ.len()
                    invariant
                        succ@ == row_at(f.tables.succs@, ri as int),
                        region_term(*f, ri as int) == Some(term),
                        j <= succ@.len(),
                        out@ == base + edges_of(*f, ri as int).take(j as int),
                    decreases succ@.len() - j,
                {
                    out.push(CtrlEdge { term, gated: succ[j] });
                    proof {
                        assert(edges_of(*f, ri as int).take(j + 1) == edges_of(*f, ri as int).take(j as int).push(
                            CtrlEdge { term, gated: succ@[j as int] },
                        ));
                    }
                    j = j + 1;
                }
                assert(edges_of(*f, ri as int).take(j as int) == edges_of(*f, ri as int));
            },
            None => {
                assert(out@ == all_edges(*f, ri as int) + edges_of(*f, ri as int));
            },
        }
        ri = ri + 1;
    }
    sort_edges(&mut out);
    out
}

/// The terminators of the regions `rs`, in that order, skipping regions
/// without one.
pub open spec fn terms_of(f: Fabric, rs: Seq<RegionId>) -> Seq<CellId>
    decreases rs.len(),
{
    if rs.len() == 0 {
        Seq::empty()
    } else {
        terms_of(f, rs.drop_last()) + match region_term(f, rs.last().0 as int) {
            Some(t) => seq![t],
            None => Seq::empty(),
        }
    }
}

/// `rs` is the ascending list of the regions that gate `target`.
pub open spec fn is_controlling_list(f: Fabric, target: u32, rs: Seq<RegionId>) -> bool {
    &&& forall|i: int, j: int| 0 <= i < j < rs.len() ==> rs[i].0 < rs[j].0
    &&& forall|x: RegionId| #[trigger] rs.contains(x) <==> gates(f, target, x.0)
}

/// Sort cell ids ascending (ties kept together).
fn sort_cells(v: &mut Vec<CellId>)
    ensures
        final(v)@.to_multiset() == old(v)@.to_multiset(),
        forall|a: int, b: int| 0 <= a < b < final(v)@.len() ==> final(v)@[a].0 <= final(v)@[b].0,
{
    let n = v.len();
    let mut i: usize = 1;
    if n == 0 {
        return;
    }
    while i < n
        invariant
            n == v@.len(),
            1 <= i <= n,
            v@.to_multiset() == old(v)@.to_multiset(),
            forall|a: int, b: int| 0 <= a < b < i ==> v@[a].0 <= v@[b].0,
        decreases n - i,
    {
        let mut j = i;
        while j > 0 && v[j - 1].0 > v[j].0
            invariant
                n == v@.len(),
                0 <= j <= i < n,
                v@.to_multiset() == old(v)@.to_multiset(),
                forall|a: int, b: int| 0 <= a < b <= i && a != j && b != j ==> v@[a].0 <= v@[b].0,
                forall|b: int| j < b <= i ==> v@[j as int].0 < v@[b].0,
            decreases j,
        {
            let ghost s = v@;
            let x = v[j - 1];
            let y = v[j];
            v.set(j - 1, y);
            v.set(j, x);
            proof {
                lemma_swap_keeps(s, j - 1, j as int);
                assert(v@ == s.update(j - 1, s[j as int]).update(j as int, s[j - 1]));
            }
            j = j - 1;
        }
        assert forall|a: int, b: int| 0 <= a < b <= i implies v@[a].0 <= v@[b].0 by {
            if b == j && a != j {
                if a < j - 1 {
                    assert(v@[a].0 <= v@[j - 1].0);
                }
            }
        }
        i = i + 1;
    }
}

/// The terminator cells gating control flow into `target`'s cells: the
/// terminators of every region that gates `target`, ascending by id.
pub fn controlling_terminators(f: &Fabric, target: RegionId) -> (out: Vec<CellId>)
    ensures
        exists|rs: Seq<RegionId>| #[trigger] is_controlling_list(*f, target.0, rs)
            && out@.to_multiset() == terms_of(*f, rs).to_multiset(),
        forall|a: int, b: int| 0 <= a < b < out@.len() ==> out@[a].0 <= out@[b].0,
{
    let rs = controlling_regions(f, target);
    let mut out: Vec<CellId> = Vec::new();
    let mut i: usize = 0;
    while i < rs.len()
        invariant
            i <= rs@.len(),
            out@ == terms_of(*f, rs@.take(i as int)),
        decreases rs@.len() - i,
    {
        proof {
            assert(rs@.take(i + 1).drop_last() == rs@.take(i as int));
        }
        if let Some(t) = terminator_of(f, rs[i]) {
            out.push(t);
        }
        i = i + 1;
    }
    assert(rs@.take(i as int) == rs@);
    assert(is_controlling_list(*f, target.0, rs@));
    sort_cells(&mut out);
    out
}

} // verus!
