//! Full provenance: the data walk of `prov`, plus, at the root, the
//! control wires that gate the root's region, each with the data chain
//! of the terminator's condition. A loop-carried influence is cut with a
//! revisit marker instead of diverging.

use vstd::prelude::*;
use crate::cell::{CellKind, kind_is_terminator};
use crate::chars::{chars_of, push_str, starts_with_str};
use crate::ctrl::{controlling_terminators, is_controlling_list, terms_of};
use crate::fabric::{Fabric, cell_at};
use crate::id::{CellId, RegionId, cell_id_text};
use crate::prov::{PROV_DEPTH_LIMIT, ProvNode, is_root_kind};
use crate::text::{cell_text, render_cell};
use crate::prov::line_printable;

verus! {

/// Why the walk below the root from `id` fails, with `visiting` the
/// non-root cells on the path above it; `None` when it succeeds.
pub open spec fn fw_err(f: Fabric, id: CellId, visiting: Seq<CellId>, depth: int) -> Option<Seq<char>>
    decreases PROV_DEPTH_LIMIT + 2 - depth, 0int,
{
    match cell_at(f, id.0 as int) {
        None => Some("no such cell "@ + cell_id_text(id)),
        Some(c) => if depth > PROV_DEPTH_LIMIT {
            Some("full provenance depth guard at "@ + cell_id_text(id))
        } else if visiting.contains(id) || is_root_kind(c.kind) {
            None
        } else {
            fkids_err(f, c.operands, c.operands.len() as int, visiting.push(id), depth + 1)
        },
    }
}

/// The first failure among the walks of the first `k` operands.
pub open spec fn fkids_err(f: Fabric, ops: Seq<CellId>, k: int, visiting: Seq<CellId>, depth: int) -> Option<Seq<char>>
    decreases PROV_DEPTH_LIMIT + 2 - depth, k + 1,
{
    if k <= 0 || k > ops.len() {
        None
    } else {
        match fkids_err(f, ops, k - 1, visiting, depth) {
            Some(e) => Some(e),
            None => fw_err(f, ops[k - 1], visiting, depth),
        }
    }
}

/// Every cell whose line the walk below the root from `id` renders is
/// no float constant (the walk stops at its first failure).
pub open spec fn fw_printable(f: Fabric, id: CellId, visiting: Seq<CellId>, depth: int) -> bool
    decreases PROV_DEPTH_LIMIT + 2 - depth, 0int,
{
    match cell_at(f, id.0 as int) {
        None => true,
        Some(c) => if depth > PROV_DEPTH_LIMIT {
            true
        } else if visiting.contains(id) || is_root_kind(c.kind) {
            line_printable(f, id)
        } else {
            line_printable(f, id) && fkids_printable(f, c.operands, c.operands.len() as int, visiting.push(id), depth + 1)
        },
    }
}

/// The walks of the first `k` operands render no float constant, up to
/// the first that fails.
pub open spec fn fkids_printable(f: Fabric, ops: Seq<CellId>, k: int, visiting: Seq<CellId>, depth: int) -> bool
    decreases PROV_DEPTH_LIMIT + 2 - depth, k + 1,
{
    if k <= 0 || k > ops.len() {
        true
    } else {
        fkids_printable(f, ops, k - 1, visiting, depth) && (fkids_err(f, ops, k - 1, visiting, depth) is Some
            || fw_printable(f, ops[k - 1], visiting, depth))
    }
}

proof fn lemma_fkids_printable(f: Fabric, ops: Seq<CellId>, k: int, n: int, visiting: Seq<CellId>, depth: int)
    requires
        0 <= k < n <= ops.len(),
        fkids_printable(f, ops, n, visiting, depth),
        fkids_err(f, ops, k, visiting, depth) is None,
    ensures
        fw_printable(f, ops[k], visiting, depth),
    decreases n - k,
{
    if k + 1 < n {
        lemma_fkids_printable(f, ops, k, n - 1, visiting, depth);
    }
}

/// `node` is the walk below the root from `id`: a revisit marker when
/// `id` is already on the path, else the cell's line and, under a
/// non-root cell, one subtree per operand.
pub open spec fn fw_tree(f: Fabric, node: ProvNode, id: CellId, visiting: Seq<CellId>) -> bool
    decreases node, node.children@.len() + 1,
{
    &&& node.id == id
    &&& match cell_at(f, id.0 as int) {
        None => false,
        Some(c) => if visiting.contains(id) {
            node.line@ == "revisit: "@ + cell_text(f, id) && node.children@.len() == 0
        } else if is_root_kind(c.kind) {
            node.line@ == cell_text(f, id) && node.children@.len() == 0
        } else {
            &&& node.line@ == cell_text(f, id)
            &&& node.children@.len() == c.operands.len()
            &&& fkids_tree(f, node, c.operands, node.children@.len(), visiting.push(id))
        },
    }
}

/// The first `k` children of `node` are the walks of the first `k` operands.
pub open spec fn fkids_tree(f: Fabric, node: ProvNode, ops: Seq<CellId>, k: nat, visiting: Seq<CellId>) -> bool
    decreases node, k,
{
    if k == 0 || k > node.children@.len() {
        true
    } else {
        proof { assert(decreases_to!(node => node.children@[k - 1])); }
        fkids_tree(f, node, ops, (k - 1) as nat, visiting) && fw_tree(f, node.children@[k - 1], ops[k - 1], visiting)
    }
}

proof fn lemma_fkids_tree(f: Fabric, node: ProvNode, ops: Seq<CellId>, k: nat, visiting: Seq<CellId>)
    requires
        k <= node.children@.len(),
        forall|j: int| 0 <= j < k ==> fw_tree(f, #[trigger] node.children@[j], ops[j], visiting),
    ensures
        fkids_tree(f, node, ops, k, visiting),
    decreases k,
{
    if k > 0 {
        lemma_fkids_tree(f, node, ops, (k - 1) as nat, visiting);
    }
}

proof fn lemma_fkids_err_sticks(f: Fabric, ops: Seq<CellId>, k: int, n: int, visiting: Seq<CellId>, depth: int)
    requires
        0 <= k <= n <= ops.len(),
        fkids_err(f, ops, k, visiting, depth) is Some,
    ensures
        fkids_err(f, ops, n, visiting, depth) == fkids_err(f, ops, k, visiting, depth),
    decreases n - k,
{
    if k < n {
        lemma_fkids_err_sticks(f, ops, k, n - 1, visiting, depth);
    }
}

fn msg_at(pre: &str, id: CellId) -> (m: String)
    ensures
        m@ == pre@ + cell_id_text(id),
{
    let mut m = String::new();
    push_str(&mut m, pre);
    let t = id.to_text();
    push_str(&mut m, t.as_str());
    m
}

fn contains_cell(v: &Vec<CellId>, x: CellId) -> (b: bool)
    ensures
        b == v@.contains(x),
{
    let mut i: usize = 0;
    while i < v.len()
        invariant
            i <= v@.len(),
            forall|k: int| 0 <= k < i ==> v@[k] != x,
        decreases v@.len() - i,
    {
        if v[i].0 == x.0 {
            assert(v@[i as int] == x);
            return true;
        }
        i = i + 1;
    }
    false
}

fn is_root_cell(c: &crate::cell::Cell) -> (b: bool)
    ensures
        b == is_root_kind(c@.kind),
{
    match &c.kind {
        CellKind::Param { .. } => true,
        CellKind::Const { .. } => true,
        _ => false,
    }
}

/// Walk every operand in `ops` below the root, in order.
fn fkids(f: &Fabric, ops: &Vec<CellId>, visiting: &mut Vec<CellId>, depth: u32) -> (r: Result<Vec<ProvNode>, String>)
    requires
        fkids_printable(*f, ops@, ops@.len() as int, old(visiting)@, depth as int),
        depth <= PROV_DEPTH_LIMIT + 1,
    ensures
        final(visiting)@ == old(visiting)@,
        match r {
            Ok(ch) => fkids_err(*f, ops@, ops@.len() as int, old(visiting)@, depth as int) is None
                && ch@.len() == ops@.len()
                && forall|j: int| 0 <= j < ops@.len() ==> fw_tree(*f, #[trigger] ch@[j], ops@[j], old(visiting)@),
            Err(e) => fkids_err(*f, ops@, ops@.len() as int, old(visiting)@, depth as int) == Some(e@),
        },
    decreases PROV_DEPTH_LIMIT + 2 - depth, 1int,
{
    let mut ch: Vec<ProvNode> = Vec::new();
    let mut k: usize = 0;
    while k < ops.len()
        invariant
            k <= ops@.len(),
            visiting@ == old(visiting)@,
            depth <= PROV_DEPTH_LIMIT + 1,
            fkids_printable(*f, ops@, ops@.len() as int, old(visiting)@, depth as int),
            fkids_err(*f, ops@, k as int, old(visiting)@, depth as int) is None,
            ch@.len() == k,
            forall|j: int| 0 <= j < k ==> fw_tree(*f, #[trigger] ch@[j], ops@[j], old(visiting)@),
        decreases ops@.len() - k,
    {
        proof { lemma_fkids_printable(*f, ops@, k as int, ops@.len() as int, old(visiting)@, depth as int); }
        match fwalk(f, ops[k], visiting, depth) {
            Ok(n) => ch.push(n),
            Err(e) => {
                proof {
                    lemma_fkids_err_sticks(*f, ops@, k + 1, ops@.len() as int, old(visiting)@, depth as int);
                }
                return Err(e);
            },
        }
        k = k + 1;
    }
    Ok(ch)
}

/// Walk below the root from `id`.
fn fwalk(f: &Fabric, id: CellId, visiting: &mut Vec<CellId>, depth: u32) -> (r: Result<ProvNode, String>)
    requires
        fw_printable(*f, id, old(visiting)@, depth as int),
        depth <= PROV_DEPTH_LIMIT + 1,
    ensures
        final(visiting)@ == old(visiting)@,
        match r {
            Ok(n) => fw_err(*f, id, old(visiting)@, depth as int) is None && fw_tree(*f, n, id, old(visiting)@),
            Err(e) => fw_err(*f, id, old(visiting)@, depth as int) == Some(e@),
        },
    decreases PROV_DEPTH_LIMIT + 2 - depth, 0int,
{
    let c = match f.cell(id) {
        Some(c) => c,
        None => return Err(msg_at("no such cell ", id)),
    };
    if depth > PROV_DEPTH_LIMIT {
        return Err(msg_at("full provenance depth guard at ", id));
    }
    if contains_cell(visiting, id) {
        let line = render_cell(f, id);
        let mut m = String::new();
        push_str(&mut m, "revisit: ");
        push_str(&mut m, line.as_str());
        return Ok(ProvNode { id, line: m, children: Vec::new() });
    }
    let line = render_cell(f, id);
    if is_root_cell(c) {
        return Ok(ProvNode { id, line, children: Vec::new() });
    }
    let ghost v0 = visiting@;
    visiting.push(id);
    let kids = fkids(f, &c.operands, visiting, depth + 1);
    visiting.pop();
    assert(visiting@ =~= v0);
    match kids {
        Ok(children) => {
            let node = ProvNode { id, line, children };
            proof {
                lemma_fkids_tree(*f, node, c@.operands, c@.operands.len(), v0.push(id));
            }
            Ok(node)
        },
        Err(e) => Err(e),
    }
}

/// The region whose controlling terminators the full walk of `id`
/// shows: the root's region, unless it is the entry region (or `id` is
/// absent).
pub open spec fn ctrl_region(f: Fabric, id: CellId) -> Option<RegionId> {
    match cell_at(f, id.0 as int) {
        None => None,
        Some(c) => if f.regions@.len() > 0 && c.region.0 == 0 {
            None
        } else {
            Some(c.region)
        },
    }
}

/// `ts` is the list of the controlling terminators of the root's
/// region, ascending (empty when none are shown).
pub open spec fn ctrl_list(f: Fabric, id: CellId, ts: Seq<CellId>) -> bool {
    match ctrl_region(f, id) {
        None => ts.len() == 0,
        Some(r) => term_list(f, r, ts),
    }
}

/// `ts` lists the terminators of the regions gating `r`, ascending.
pub open spec fn term_list(f: Fabric, r: RegionId, ts: Seq<CellId>) -> bool {
    &&& exists|rs: Seq<RegionId>| #[trigger] is_controlling_list(f, r.0, rs)
        && ts.to_multiset() == terms_of(f, rs).to_multiset()
    &&& forall|a: int, b: int| 0 <= a < b < ts.len() ==> ts[a].0 <= ts[b].0
}

/// The non-root cells on the path at the root: the root itself unless it
/// is a param or a const.
pub open spec fn root_visiting(c: crate::cell::CellV, id: CellId) -> Seq<CellId> {
    if is_root_kind(c.kind) { Seq::empty() } else { seq![id] }
}

/// The first failure among the condition walks of the first `k`
/// controlling terminators.
pub open spec fn ctrl_err(f: Fabric, ts: Seq<CellId>, k: int, vis: Seq<CellId>) -> Option<Seq<char>>
    decreases k,
{
    if k <= 0 || k > ts.len() {
        None
    } else {
        match ctrl_err(f, ts, k - 1, vis) {
            Some(e) => Some(e),
            None => match cell_at(f, ts[k - 1].0 as int) {
                None => None,
                Some(tc) => fkids_err(f, tc.operands, tc.operands.len() as int, vis.push(ts[k - 1]), 1),
            },
        }
    }
}

proof fn lemma_ctrl_err_sticks(f: Fabric, ts: Seq<CellId>, k: int, n: int, vis: Seq<CellId>)
    requires
        0 <= k <= n <= ts.len(),
        ctrl_err(f, ts, k, vis) is Some,
    ensures
        ctrl_err(f, ts, n, vis) == ctrl_err(f, ts, k, vis),
    decreases n - k,
{
    if k < n {
        lemma_ctrl_err_sticks(f, ts, k, n - 1, vis);
    }
}

/// Why the full walk from `id` fails, given the controlling terminators `ts`.
pub open spec fn full_err(f: Fabric, id: CellId, ts: Seq<CellId>) -> Option<Seq<char>> {
    match cell_at(f, id.0 as int) {
        None => Some("no such cell "@ + cell_id_text(id)),
        Some(c) => {
            let data = if is_root_kind(c.kind) {
                None
            } else {
                fkids_err(f, c.operands, c.operands.len() as int, seq![id], 1)
            };
            match data {
                Some(e) => Some(e),
                None => ctrl_err(f, ts, ts.len() as int, root_visiting(c, id)),
            }
        },
    }
}

/// `m` shows terminator `t`: its line, and the walks of its operands.
pub open spec fn ctrl_node(f: Fabric, m: ProvNode, t: CellId, vis: Seq<CellId>) -> bool {
    &&& m.id == t
    &&& m.line@ == "ctrl: "@ + cell_text(f, t)
    &&& match cell_at(f, t.0 as int) {
        None => m.children@.len() == 0,
        Some(tc) => m.children@.len() == tc.operands.len() && forall|j: int|
            0 <= j < tc.operands.len() ==> fw_tree(f, #[trigger] m.children@[j], tc.operands[j], vis.push(t)),
    }
}

/// The `k`-th control child of the root, after `dk` data children.
pub open spec fn ctrl_kid(f: Fabric, node: ProvNode, dk: int, k: int, t: CellId, vis: Seq<CellId>) -> bool {
    ctrl_node(f, node.children@[dk + k], t, vis)
}

/// How many data children the root cell `c` has.
pub open spec fn data_kids(c: crate::cell::CellV) -> int {
    if is_root_kind(c.kind) { 0 } else { c.operands.len() as int }
}

/// `node` is the full walk from `id` with controlling terminators `ts`:
/// the root's line, its data children, then one control child per
/// terminator, in order.
pub open spec fn full_tree(f: Fabric, node: ProvNode, id: CellId, ts: Seq<CellId>) -> bool {
    &&& node.id == id
    &&& node.line@ == cell_text(f, id)
    &&& match cell_at(f, id.0 as int) {
        None => false,
        Some(c) => {
            let dk = data_kids(c);
            &&& node.children@.len() == dk + ts.len()
            &&& forall|j: int| 0 <= j < dk ==> fw_tree(f, #[trigger] node.children@[j], c.operands[j], seq![id])
            &&& forall|k: int| 0 <= k < ts.len() ==> #[trigger] ctrl_kid(f, node, dk, k, ts[k], root_visiting(c, id))
        },
    }
}

/// The condition walks of the first `k` controlling terminators render
/// no float constant, up to the first that fails.
pub open spec fn ctrl_printable(f: Fabric, ts: Seq<CellId>, k: int, vis: Seq<CellId>) -> bool
    decreases k,
{
    if k <= 0 || k > ts.len() {
        true
    } else {
        ctrl_printable(f, ts, k - 1, vis) && (ctrl_err(f, ts, k - 1, vis) is Some || (line_printable(f, ts[k - 1]) && match cell_at(
            f,
            ts[k - 1].0 as int,
        ) {
            None => true,
            Some(tc) => fkids_printable(f, tc.operands, tc.operands.len() as int, vis.push(ts[k - 1]), 1),
        }))
    }
}

proof fn lemma_ctrl_printable(f: Fabric, ts: Seq<CellId>, k: int, n: int, vis: Seq<CellId>)
    requires
        0 <= k < n <= ts.len(),
        ctrl_printable(f, ts, n, vis),
        ctrl_err(f, ts, k, vis) is None,
    ensures
        line_printable(f, ts[k]),
        match cell_at(f, ts[k].0 as int) {
            None => true,
            Some(tc) => fkids_printable(f, tc.operands, tc.operands.len() as int, vis.push(ts[k]), 1),
        },
    decreases n - k,
{
    if k + 1 < n {
        lemma_ctrl_printable(f, ts, k, n - 1, vis);
    }
}

/// Every cell whose line the full walk from `id` renders, with
/// controlling terminators `ts`, is no float constant.
pub open spec fn full_printable(f: Fabric, id: CellId, ts: Seq<CellId>) -> bool {
    match cell_at(f, id.0 as int) {
        None => true,
        Some(c) => {
            let data = if is_root_kind(c.kind) {
                None
            } else {
                fkids_err(f, c.operands, c.operands.len() as int, seq![id], 1)
            };
            &&& is_root_kind(c.kind) || fkids_printable(f, c.operands, c.operands.len() as int, seq![id], 1)
            &&& data is None ==> {
                &&& ctrl_printable(f, ts, ts.len() as int, root_visiting(c, id))
                &&& ctrl_err(f, ts, ts.len() as int, root_visiting(c, id)) is None ==> line_printable(f, id)
            }
        },
    }
}

/// The full provenance of `target`: its data walk, and at the root the
/// controlling terminators of its region (none for the entry region),
/// each with the walk of its operands. Below the root only data wires are
/// followed; a cell met again on its own path becomes a revisit marker.
pub fn full_provenance(f: &Fabric, target: CellId) -> (r: Result<ProvNode, String>)
    requires
        forall|ts: Seq<CellId>| #[trigger] ctrl_list(*f, target, ts) ==> full_printable(*f, target, ts),
    ensures
        exists|ts: Seq<CellId>| #[trigger] ctrl_list(*f, target, ts) && match r {
            Ok(n) => full_err(*f, target, ts) is None && full_tree(*f, n, target, ts),
            Err(e) => full_err(*f, target, ts) == Some(e@),
        },
{
    let c = match f.cell(target) {
        Some(c) => c,
        None => {
            assert(ctrl_list(*f, target, Seq::empty()));
            return Err(msg_at("no such cell ", target));
        },
    };
    assert(cell_at(*f, target.0 as int) == Some(c@));
    let on = if f.regions.len() == 0 { true } else { c.region.0 != 0 };
    let ts: Vec<CellId> = if on {
        let ts = controlling_terminators(f, c.region);
        assert(ctrl_region(*f, target) == Some(c.region));
        assert(term_list(*f, c.region, ts@));
        assert(ctrl_list(*f, target, ts@));
        ts
    } else {
        Vec::new()
    };
    assert(ctrl_list(*f, target, ts@));
    assert(full_printable(*f, target, ts@));
    let leaf = is_root_cell(c);
    let ghost vis = root_visiting(c@, target);
    let mut visiting: Vec<CellId> = Vec::new();
    let mut children: Vec<ProvNode> = Vec::new();
    if !leaf {
        visiting.push(target);
        assert(visiting@ =~= seq![target]);
        match fkids(f, &c.operands, &mut visiting, 1) {
            Ok(ch) => children = ch,
            Err(e) => return Err(e),
        }
    }
    assert(visiting@ =~= vis);
    let ghost dk: int = data_kids(c@);
    assert(full_err(*f, target, ts@) == ctrl_err(*f, ts@, ts@.len() as int, vis));
    let mut k: usize = 0;
    while k < ts.len()
        invariant
            k <= ts@.len(),
            full_printable(*f, target, ts@),
            ctrl_printable(*f, ts@, ts@.len() as int, vis),
            visiting@ == vis,
            vis == root_visiting(c@, target),
            ctrl_list(*f, target, ts@),
            cell_at(*f, target.0 as int) == Some(c@),
            dk == data_kids(c@),
            0 <= dk,
            full_err(*f, target, ts@) == ctrl_err(*f, ts@, ts@.len() as int, vis),
            ctrl_err(*f, ts@, k as int, vis) is None,
            children@.len() == dk + k,
            forall|j: int| 0 <= j < dk ==> fw_tree(*f, #[trigger] children@[j], c@.operands[j], seq![target]),
            forall|q: int| 0 <= q < k ==> ctrl_node(*f, #[trigger] children@[dk + q], ts@[q], vis),
        decreases ts@.len() - k,
    {
        let t = ts[k];
        proof { lemma_ctrl_printable(*f, ts@, k as int, ts@.len() as int, vis); }
        let tl = render_cell(f, t);
        let mut line = String::new();
        push_str(&mut line, "ctrl: ");
        push_str(&mut line, tl.as_str());
        let mut kids: Vec<ProvNode> = Vec::new();
        match f.cell(t) {
            Some(tc) => {
                visiting.push(t);
                let res = fkids(f, &tc.operands, &mut visiting, 1);
                visiting.pop();
                assert(visiting@ =~= vis);
                match res {
                    Ok(ch) => kids = ch,
                    Err(e) => {
                        proof {
                            lemma_ctrl_err_sticks(*f, ts@, k + 1, ts@.len() as int, vis);
                        }
                        return Err(e);
                    },
                }
            },
            None => {},
        }
        let ghost before = children@;
        children.push(ProvNode { id: t, line, children: kids });
        proof {
            assert forall|j: int| 0 <= j < dk implies fw_tree(*f, #[trigger] children@[j], c@.operands[j], seq![target]) by {
                assert(children@[j] == before[j]);
            }
            assert forall|q: int| 0 <= q < k + 1 implies ctrl_node(*f, #[trigger] children@[dk + q], ts@[q], vis) by {
                if q < k {
                    assert(before.len() == dk + k);
                    assert(children@[dk + q] == before[dk + q]);
                }
            }
        }
        k = k + 1;
    }
    let line = render_cell(f, target);
    let node = ProvNode { id: target, line, children };
    proof {
        assert forall|q: int| 0 <= q < ts@.len() implies #[trigger] ctrl_kid(*f, node, dk, q, ts@[q], vis) by {
            assert(ctrl_node(*f, node.children@[dk + q], ts@[q], vis));
        }
    }
    Ok(node)
}


/// `l` begins with `p`.
pub open spec fn has_prefix(l: Seq<char>, p: Seq<char>) -> bool {
    l.len() >= p.len() && l.take(p.len() as int) == p
}

/// What the check says of one child `ch` of a node (`at_root`: the node
/// is the root), before looking below it.
pub open spec fn node_err(f: Fabric, ch: ProvNode, at_root: bool) -> Option<Seq<char>> {
    match cell_at(f, ch.id.0 as int) {
        None => Some("full provenance invented cell "@ + cell_id_text(ch.id)),
        Some(c) => if has_prefix(ch.line@, "ctrl: "@) {
            if !at_root {
                Some("ctrl child "@ + cell_id_text(ch.id) + " below the root (structure)"@)
            } else if !kind_is_terminator(c.kind) {
                Some("ctrl child "@ + cell_id_text(ch.id) + " is not a terminator"@)
            } else {
                None
            }
        } else if has_prefix(ch.line@, "revisit: "@) {
            None
        } else if ch.children@.len() == 0 {
            if !is_root_kind(c.kind) {
                Some("full provenance has non-root leaf "@ + cell_id_text(ch.id))
            } else {
                None
            }
        } else if kind_is_terminator(c.kind) {
            Some("non-value cell "@ + cell_id_text(ch.id) + " inside data provenance tree"@)
        } else {
            None
        },
    }
}

/// The first fault below `n`: children in order, each before its subtree.
pub open spec fn check_err(f: Fabric, n: ProvNode, at_root: bool) -> Option<Seq<char>>
    decreases n, n.children@.len() + 1,
{
    ck_kids(f, n, n.children@.len(), at_root)
}

pub open spec fn ck_kids(f: Fabric, n: ProvNode, k: nat, at_root: bool) -> Option<Seq<char>>
    decreases n, k,
{
    if k == 0 || k > n.children@.len() {
        None
    } else {
        proof { assert(decreases_to!(n => n.children@[k - 1])); }
        match ck_kids(f, n, (k - 1) as nat, at_root) {
            Some(e) => Some(e),
            None => match node_err(f, n.children@[k - 1], at_root) {
                Some(e) => Some(e),
                None => check_err(f, n.children@[k - 1], false),
            },
        }
    }
}

proof fn lemma_ck_kids_sticks(f: Fabric, n: ProvNode, k: nat, m: nat, at_root: bool)
    requires
        k <= m <= n.children@.len(),
        ck_kids(f, n, k, at_root) is Some,
    ensures
        ck_kids(f, n, m, at_root) == ck_kids(f, n, k, at_root),
    decreases m - k,
{
    if k < m {
        lemma_ck_kids_sticks(f, n, k, (m - 1) as nat, at_root);
    }
}

fn node_check(f: &Fabric, ch: &ProvNode, at_root: bool) -> (r: Option<String>)
    ensures
        match (r, node_err(*f, *ch, at_root)) {
            (None, None) => true,
            (Some(m), Some(e)) => m@ == e,
            _ => false,
        },
{
    let c = match f.cell(ch.id) {
        Some(c) => c,
        None => return Some(msg_at("full provenance invented cell ", ch.id)),
    };
    let l = chars_of(ch.line.as_str());
    if starts_with_str(&l, "ctrl: ") {
        if !at_root {
            let mut m = msg_at("ctrl child ", ch.id);
            push_str(&mut m, " below the root (structure)");
            return Some(m);
        }
        if !c.is_terminator() {
            let mut m = msg_at("ctrl child ", ch.id);
            push_str(&mut m, " is not a terminator");
            return Some(m);
        }
        None
    } else if starts_with_str(&l, "revisit: ") {
        None
    } else if ch.children.len() == 0 {
        if !is_root_cell(c) {
            return Some(msg_at("full provenance has non-root leaf ", ch.id));
        }
        None
    } else if !c.produces_value() {
        let mut m = msg_at("non-value cell ", ch.id);
        push_str(&mut m, " inside data provenance tree");
        Some(m)
    } else {
        None
    }
}

fn check_node(f: &Fabric, n: &ProvNode, at_root: bool) -> (r: Result<(), String>)
    ensures
        match r {
            Ok(_) => check_err(*f, *n, at_root) is None,
            Err(e) => check_err(*f, *n, at_root) == Some(e@),
        },
    decreases n,
{
    let mut k: usize = 0;
    while k < n.children.len()
        invariant
            k <= n.children@.len(),
            ck_kids(*f, *n, k as nat, at_root) is None,
        decreases n.children@.len() - k,
    {
        let ch = &n.children[k];
        proof { assert(decreases_to!(*n => n.children@[k as int])); }
        match node_check(f, ch, at_root) {
            Some(e) => {
                proof { lemma_ck_kids_sticks(*f, *n, (k + 1) as nat, n.children@.len(), at_root); }
                return Err(e);
            },
            None => {},
        }
        match check_node(f, ch, false) {
            Ok(_) => {},
            Err(e) => {
                proof { lemma_ck_kids_sticks(*f, *n, (k + 1) as nat, n.children@.len(), at_root); }
                return Err(e);
            },
        }
        k = k + 1;
    }
    Ok(())
}

/// The ids of the first `k` children of `n` shown as control children.
pub open spec fn shown_ids(n: ProvNode, k: nat) -> Seq<CellId>
    decreases k,
{
    if k == 0 || k > n.children@.len() {
        Seq::empty()
    } else if has_prefix(n.children@[k - 1].line@, "ctrl: "@) {
        shown_ids(n, (k - 1) as nat).push(n.children@[k - 1].id)
    } else {
        shown_ids(n, (k - 1) as nat)
    }
}

/// The first of the first `k` terminators of `ts` that `n` does not show.
pub open spec fn first_missing(n: ProvNode, ts: Seq<CellId>, k: int) -> Option<CellId>
    decreases k,
{
    if k <= 0 || k > ts.len() {
        None
    } else {
        match first_missing(n, ts, k - 1) {
            Some(t) => Some(t),
            None => if shown_ids(n, n.children@.len()).contains(ts[k - 1]) { None } else { Some(ts[k - 1]) },
        }
    }
}

proof fn lemma_missing_sticks(n: ProvNode, ts: Seq<CellId>, k: int, m: int)
    requires
        0 <= k <= m <= ts.len(),
        first_missing(n, ts, k) is Some,
    ensures
        first_missing(n, ts, m) == first_missing(n, ts, k),
    decreases m - k,
{
    if k < m {
        lemma_missing_sticks(n, ts, k, m - 1);
    }
}

/// `ts` lists the controlling terminators of `id`'s region (any list when
/// `id` is absent).
pub open spec fn region_terms(f: Fabric, id: CellId, ts: Seq<CellId>) -> bool {
    match cell_at(f, id.0 as int) {
        None => true,
        Some(c) => term_list(f, c.region, ts),
    }
}

/// What the check says of the full walk `n` of `id`, with `allowed` the
/// controlling terminators of its region.
pub open spec fn full_verdict(f: Fabric, n: ProvNode, id: CellId, allowed: Seq<CellId>) -> Option<Seq<char>> {
    if cell_at(f, id.0 as int) is None {
        Some("no such cell "@ + cell_id_text(id))
    } else if cell_at(f, n.id.0 as int) is None {
        Some("full provenance invented cell "@ + cell_id_text(n.id))
    } else {
        match (ctrl_region(f, id), first_missing(n, allowed, allowed.len() as int)) {
            (Some(_), Some(t)) => Some("full provenance of "@ + cell_id_text(id) + " misses controlling terminator "@
                + cell_id_text(t)),
            _ => check_err(f, n, true),
        }
    }
}

fn shown_of(n: &ProvNode) -> (v: Vec<CellId>)
    ensures
        v@ == shown_ids(*n, n.children@.len()),
{
    let mut v: Vec<CellId> = Vec::new();
    let mut k: usize = 0;
    while k < n.children.len()
        invariant
            k <= n.children@.len(),
            v@ == shown_ids(*n, k as nat),
        decreases n.children@.len() - k,
    {
        let l = chars_of(n.children[k].line.as_str());
        if starts_with_str(&l, "ctrl: ") {
            v.push(n.children[k].id);
        }
        k = k + 1;
    }
    v
}

/// The check the corpus runs on a full walk: the walk succeeds, every
/// controlling terminator of the root's region is shown at the root, no
/// cell is invented, control children sit only at the root and are
/// terminators, data leaves are roots, and inner data cells produce
/// values; revisit markers are cut points.
pub fn check_full_prov(f: &Fabric, id: CellId) -> (r: Result<(), String>)
    requires
        forall|ts: Seq<CellId>| #[trigger] ctrl_list(*f, id, ts) ==> full_printable(*f, id, ts),
    ensures
        exists|ts: Seq<CellId>| #[trigger] ctrl_list(*f, id, ts) && match full_err(*f, id, ts) {
            Some(e) => r matches Err(m) && m@ == e,
            None => exists|n: ProvNode, allowed: Seq<CellId>|
                #![trigger full_tree(*f, n, id, ts), region_terms(*f, id, allowed)]
                full_tree(*f, n, id, ts) && region_terms(*f, id, allowed) && match (r, full_verdict(*f, n, id, allowed)) {
                    (Ok(_), None) => true,
                    (Err(m), Some(e)) => m@ == e,
                    _ => false,
                },
        },
{
    let node = match full_provenance(f, id) {
        Ok(n) => n,
        Err(e) => return Err(e),
    };
    let ghost ts = choose|ts: Seq<CellId>| #[trigger] ctrl_list(*f, id, ts) && full_err(*f, id, ts) is None
        && full_tree(*f, node, id, ts);
    let region = match f.cell(id) {
        Some(c) => c.region,
        None => return Err(msg_at("no such cell ", id)),
    };
    assert(cell_at(*f, id.0 as int) is Some && cell_at(*f, id.0 as int)->0.region == region);
    if f.cell(node.id).is_none() {
        return Err(msg_at("full provenance invented cell ", node.id));
    }
    let allowed = controlling_terminators(f, region);
    assert(region_terms(*f, id, allowed@));
    let on = if f.regions.len() == 0 { true } else { region.0 != 0 };
    if on {
        assert(ctrl_region(*f, id) is Some);
        let shown = shown_of(&node);
        let mut k: usize = 0;
        while k < allowed.len()
            invariant
                k <= allowed@.len(),
                shown@ == shown_ids(node, node.children@.len()),
                first_missing(node, allowed@, k as int) is None,
                cell_at(*f, id.0 as int) is Some,
                cell_at(*f, node.id.0 as int) is Some,
                ctrl_region(*f, id) is Some,
                region_terms(*f, id, allowed@),
                ctrl_list(*f, id, ts),
                full_err(*f, id, ts) is None,
                full_tree(*f, node, id, ts),
            decreases allowed@.len() - k,
        {
            let t = allowed[k];
            if !contains_cell(&shown, t) {
                proof { lemma_missing_sticks(node, allowed@, k + 1, allowed@.len() as int); }
                let mut m = msg_at("full provenance of ", id);
                push_str(&mut m, " misses controlling terminator ");
                let tt = t.to_text();
                push_str(&mut m, tt.as_str());
                return Err(m);
            }
            k = k + 1;
        }
    }
    check_node(f, &node, true)
}


/// Two strictly ascending region lists with the same members are equal.
proof fn lemma_same_members_ascending(a: Seq<RegionId>, b: Seq<RegionId>)
    requires
        forall|i: int, j: int| 0 <= i < j < a.len() ==> a[i].0 < a[j].0,
        forall|i: int, j: int| 0 <= i < j < b.len() ==> b[i].0 < b[j].0,
        forall|z: RegionId| #![trigger a.contains(z)] #![trigger b.contains(z)] a.contains(z) <==> b.contains(z),
    ensures
        a == b,
    decreases a.len(),
{
    if a.len() == 0 {
        if b.len() > 0 {
            assert(b.contains(b[0]));
        }
        assert(a =~= b);
    } else if b.len() == 0 {
        assert(a.contains(a[0]));
    } else {
        let x = a[0];
        let y = b[0];
        assert(a.contains(x));
        assert(b.contains(y));
        let i = choose|i: int| 0 <= i < b.len() && b[i] == x;
        let j = choose|j: int| 0 <= j < a.len() && a[j] == y;
        assert(x == y) by {
            if i > 0 {
                assert(b[0].0 < b[i].0);
            }
            if j > 0 {
                assert(a[0].0 < a[j].0);
            }
        }
        let a1 = a.drop_first();
        let b1 = b.drop_first();
        assert forall|z: RegionId| #[trigger] a1.contains(z) <==> b1.contains(z) by {
            if a1.contains(z) {
                let k = choose|k: int| 0 <= k < a1.len() && a1[k] == z;
                assert(a[k + 1] == z);
                assert(a.contains(z));
                let m = choose|m: int| 0 <= m < b.len() && b[m] == z;
                assert(a[0].0 < a[k + 1].0);
                assert(m != 0);
                assert(b1[m - 1] == z);
            }
            if b1.contains(z) {
                let k = choose|k: int| 0 <= k < b1.len() && b1[k] == z;
                assert(b[k + 1] == z);
                assert(b.contains(z));
                let m = choose|m: int| 0 <= m < a.len() && a[m] == z;
                assert(b[0].0 < b[k + 1].0);
                assert(m != 0);
                assert(a1[m - 1] == z);
            }
        }
        assert forall|i: int, j: int| 0 <= i < j < a1.len() implies a1[i].0 < a1[j].0 by {
            assert(a[i + 1].0 < a[j + 1].0);
        }
        assert forall|i: int, j: int| 0 <= i < j < b1.len() implies b1[i].0 < b1[j].0 by {
            assert(b[i + 1].0 < b[j + 1].0);
        }
        lemma_same_members_ascending(a1, b1);
        assert(a =~= seq![x] + a1);
        assert(b =~= seq![y] + b1);
    }
}

proof fn lemma_shown_ids(n: ProvNode, k: nat, j: int)
    requires
        0 <= j < k <= n.children@.len(),
        has_prefix(n.children@[j].line@, "ctrl: "@),
    ensures
        shown_ids(n, k).contains(n.children@[j].id),
    decreases k,
{
    if j < k - 1 {
        lemma_shown_ids(n, (k - 1) as nat, j);
        let s = shown_ids(n, (k - 1) as nat);
        let i = choose|i: int| 0 <= i < s.len() && s[i] == n.children@[j].id;
        if has_prefix(n.children@[k - 1].line@, "ctrl: "@) {
            assert(s.push(n.children@[k - 1].id)[i] == n.children@[j].id);
        }
    } else {
        let s = shown_ids(n, (k - 1) as nat);
        assert(s.push(n.children@[j].id)[s.len() as int] == n.children@[j].id);
    }
}

/// A full provenance walk shows, at its root, every controlling
/// terminator of the root's region: the check never finds one missing.
pub proof fn lemma_full_walk_misses_nothing(
    f: Fabric,
    n: ProvNode,
    id: CellId,
    ts: Seq<CellId>,
    allowed: Seq<CellId>,
)
    requires
        ctrl_list(f, id, ts),
        full_tree(f, n, id, ts),
        region_terms(f, id, allowed),
    ensures
        ctrl_region(f, id) is Some ==> first_missing(n, allowed, allowed.len() as int) is None,
{
    broadcast use vstd::seq_lib::to_multiset_contains;
    if ctrl_region(f, id) is Some {
        let c = cell_at(f, id.0 as int)->0;
        assert(cell_at(f, id.0 as int) == Some(c));
        let r = c.region;
        let dk = data_kids(c);
        let vis = root_visiting(c, id);
        let rs1 = choose|rs: Seq<RegionId>| #[trigger] is_controlling_list(f, r.0, rs)
            && ts.to_multiset() == terms_of(f, rs).to_multiset();
        let rs2 = choose|rs: Seq<RegionId>| #[trigger] is_controlling_list(f, r.0, rs)
            && allowed.to_multiset() == terms_of(f, rs).to_multiset();
        lemma_same_members_ascending(rs1, rs2);
        assert(allowed.to_multiset() == ts.to_multiset());
        let shown = shown_ids(n, n.children@.len());
        assert forall|k: int| 0 <= k < ts.len() implies shown.contains(#[trigger] ts[k]) by {
            assert(ctrl_kid(f, n, dk, k, ts[k], vis));
            let m = n.children@[dk + k];
            reveal_strlit("ctrl: ");
            assert(m.line@.take(6) =~= "ctrl: "@);
            lemma_shown_ids(n, n.children@.len(), dk + k);
        }
        assert forall|k: int| 0 <= k < allowed.len() implies shown.contains(#[trigger] allowed[k]) by {
            assert(allowed.contains(allowed[k]));
            assert(allowed.to_multiset().count(allowed[k]) > 0);
            assert(ts.to_multiset().count(allowed[k]) > 0);
            assert(ts.contains(allowed[k]));
            let q = choose|q: int| 0 <= q < ts.len() && ts[q] == allowed[k];
            assert(shown.contains(ts[q]));
        }
        lemma_none_missing(n, allowed, allowed.len() as int);
    }
}

proof fn lemma_none_missing(n: ProvNode, ts: Seq<CellId>, k: int)
    requires
        0 <= k <= ts.len(),
        forall|q: int| 0 <= q < ts.len() ==> shown_ids(n, n.children@.len()).contains(#[trigger] ts[q]),
    ensures
        first_missing(n, ts, k) is None,
    decreases k,
{
    if k > 0 {
        lemma_none_missing(n, ts, k - 1);
        assert(shown_ids(n, n.children@.len()).contains(ts[k - 1]));
    }
}

} // verus!
