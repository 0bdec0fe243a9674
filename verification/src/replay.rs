//! Replay: fold a history's machine-applicable edits over the original
//! fabric to reproduce every intermediate fabric. Replay validates as it
//! applies: a forged or corrupted edit fails with a precise error
//! instead of producing a plausible but wrong fabric.

use vstd::prelude::*;
use crate::cell::CellV;
use crate::chars::push_str;
use crate::dec::{dec, push_dec};
use crate::diff::{DiffRecord, Edit, History};
use crate::fabric::{Fabric, cell_at, content_wf, same_content, lemma_same_content_sym, lemma_same_content_trans};
use crate::id::{CellId, RegionId, cell_id_text, region_id_text};

verus! {

/// The error applying `e` to `f` gives, if any.
pub open spec fn edit_error(f: Fabric, e: Edit) -> Option<Seq<char>> {
    match e {
        Edit::AddCell { id, cell, .. } => if id.0 as int != f.slab@.len() {
            Some("AddCell "@ + cell_id_text(id) + " is not the next free id ("@ + dec(f.slab@.len())
                + ") \u{2014} history is forged or out of order"@)
        } else if cell.region.0 as int >= f.regions@.len() {
            Some("AddCell "@ + cell_id_text(id) + ": region "@ + region_id_text(cell.region) + " does not exist"@)
        } else {
            None
        },
        Edit::RemoveCell { id, .. } => match cell_at(f, id.0 as int) {
            None => Some("RemoveCell "@ + cell_id_text(id) + ": no such cell present"@),
            Some(c) => if !f.regions@[c.region.0 as int].cells@.contains(id) {
                Some("RemoveCell "@ + cell_id_text(id) + ": not listed in its region"@)
            } else {
                None
            },
        },
        Edit::Retarget { cell, slot, from, .. } => match cell_at(f, cell.0 as int) {
            None => Some("Retarget: "@ + cell_id_text(cell) + " not present"@),
            Some(c) => if slot as int >= c.operands.len() {
                Some("Retarget: "@ + cell_id_text(cell) + " has no slot "@ + dec(slot as nat))
            } else if c.operands[slot as int] != from {
                Some("Retarget: "@ + cell_id_text(cell) + "."@ + dec(slot as nat) + " is "@ + cell_id_text(
                    c.operands[slot as int],
                ) + " but history says "@ + cell_id_text(from) + " \u{2014} history does not match the fabric"@)
            } else {
                None
            },
        },
    }
}

/// Regions of `g` are those of `f`, but for region `r` (if any) whose
/// cell list is `cells`.
pub open spec fn regions_but(f: Fabric, g: Fabric, r: int, cells: Seq<CellId>) -> bool {
    &&& g.regions@.len() == f.regions@.len()
    &&& forall|q: int| 0 <= q < f.regions@.len() ==> (#[trigger] g.regions@[q]).name@ == f.regions@[q].name@
    &&& forall|q: int| 0 <= q < f.regions@.len() && q != r ==> (#[trigger] g.regions@[q]).cells@
        == f.regions@[q].cells@
    &&& 0 <= r < f.regions@.len() ==> g.regions@[r].cells@ == cells
}

/// Cells of `g` are those of `f` under every id but `id`.
pub open spec fn cells_but(f: Fabric, g: Fabric, id: int) -> bool {
    forall|i: int| i != id ==> #[trigger] cell_at(g, i) == cell_at(f, i)
}

/// What applying `e` to `f` makes of the content: `g`.
pub open spec fn edit_effect(f: Fabric, e: Edit, g: Fabric) -> bool {
    match e {
        Edit::AddCell { id, index, cell } => {
            let r = cell.region.0 as int;
            let cs = f.regions@[r].cells@;
            &&& g.slab@.len() == f.slab@.len() + 1
            &&& cells_but(f, g, id.0 as int)
            &&& cell_at(g, id.0 as int) == Some(cell@)
            &&& regions_but(f, g, r, cs.insert(if (index as int) < cs.len() { index as int } else { cs.len() as int }, id))
        },
        Edit::RemoveCell { id, .. } => {
            let r = cell_at(f, id.0 as int)->0.region.0 as int;
            let cs = f.regions@[r].cells@;
            &&& g.slab@.len() == f.slab@.len()
            &&& cells_but(f, g, id.0 as int)
            &&& cell_at(g, id.0 as int) is None
            &&& exists|p: int| 0 <= p < cs.len() && cs[p] == id && (forall|q: int| 0 <= q < p ==> cs[q] != id)
                && regions_but(f, g, r, cs.remove(p))
        },
        Edit::Retarget { cell, slot, to, .. } => {
            let c = cell_at(f, cell.0 as int)->0;
            &&& g.slab@.len() == f.slab@.len()
            &&& cells_but(f, g, cell.0 as int)
            &&& cell_at(g, cell.0 as int) == Some(CellV { operands: c.operands.update(slot as int, to), ..c })
            &&& regions_but(f, g, -1, Seq::empty())
        },
    }
}

/// The cells an addition brings fit the id width.
pub open spec fn edit_fits(e: Edit) -> bool {
    e matches Edit::AddCell { cell, .. } ==> cell.operands@.len() <= u32::MAX
}

/// An AddCell at the next free id into an existing region keeps the
/// content well formed.
proof fn lemma_add_keeps_content_wf(f: Fabric, g: Fabric, id: CellId, r: int, p: int, c: CellV)
    requires
        content_wf(f),
        f.slab@.len() < u32::MAX,
        id.0 == f.slab@.len(),
        0 <= r < f.regions@.len(),
        c.region.0 == r,
        c.operands.len() <= u32::MAX,
        0 <= p <= f.regions@[r].cells@.len(),
        g.slab@.len() == f.slab@.len() + 1,
        cells_but(f, g, id.0 as int),
        cell_at(g, id.0 as int) == Some(c),
        regions_but(f, g, r, f.regions@[r].cells@.insert(p, id)),
    ensures
        content_wf(g),
{
    let cs = f.regions@[r].cells@;
    assert forall|k: int| 0 <= k < cs.len() implies (#[trigger] cs[k]).0 < id.0 by {
        assert(cell_at(f, cs[k].0 as int) is Some);
    }
    assert forall|q: int, k: int| 0 <= q < g.regions@.len() && 0 <= k < g.regions@[q].cells@.len() implies {
        let x = (#[trigger] g.regions@[q].cells@[k]).0 as int;
        &&& cell_at(g, x) is Some
        &&& cell_at(g, x)->0.region.0 == q
    } by {
        if q != r {
            assert(g.regions@[q].cells@[k] == f.regions@[q].cells@[k]);
            let x = f.regions@[q].cells@[k].0 as int;
            assert(cell_at(f, x) is Some);
        } else if k < p {
            assert(g.regions@[q].cells@[k] == cs[k]);
            assert(cell_at(f, cs[k].0 as int) is Some);
        } else if k > p {
            assert(g.regions@[q].cells@[k] == cs[k - 1]);
            assert(cell_at(f, cs[k - 1].0 as int) is Some);
        }
    }
    assert forall|q: int, k1: int, k2: int| 0 <= q < g.regions@.len() && 0 <= k1 < k2 < g.regions@[q].cells@.len()
        implies #[trigger] g.regions@[q].cells@[k1] != #[trigger] g.regions@[q].cells@[k2] by {
        if q != r {
            assert(f.regions@[q].cells@[k1] != f.regions@[q].cells@[k2]);
        } else {
            let a = g.regions@[q].cells@[k1];
            let b = g.regions@[q].cells@[k2];
            if k1 == p {
                assert(b == cs[k2 - 1]);
            } else if k2 == p {
                assert(a == cs[k1]);
            } else {
                let j1 = if k1 < p { k1 } else { k1 - 1 };
                let j2 = if k2 < p { k2 } else { k2 - 1 };
                assert(a == cs[j1] && b == cs[j2]);
                assert(cs[j1] != cs[j2]);
            }
        }
    }
    assert forall|i: int| #[trigger] cell_at(g, i) is Some implies {
        &&& (cell_at(g, i)->0.region.0 as int) < g.regions@.len()
        &&& g.regions@[cell_at(g, i)->0.region.0 as int].cells@.contains(CellId(i as u32))
        &&& cell_at(g, i)->0.operands.len() <= u32::MAX
    } by {
        if i == id.0 {
            assert(g.regions@[r].cells@[p] == id);
        } else {
            assert(cell_at(f, i) is Some);
            let q = cell_at(f, i)->0.region.0 as int;
            assert(f.regions@[q].cells@.contains(CellId(i as u32)));
            if q == r {
                let k = choose|k: int| 0 <= k < cs.len() && cs[k] == CellId(i as u32);
                if k < p {
                    assert(g.regions@[r].cells@[k] == CellId(i as u32));
                } else {
                    assert(g.regions@[r].cells@[k + 1] == CellId(i as u32));
                }
            }
        }
    }
}

/// A message: `pre`, a cell id, `post`.
fn msg_with_id(pre: &str, id: CellId, post: &str) -> (m: String)
    ensures
        m@ == pre@ + cell_id_text(id) + post@,
{
    let mut m = String::new();
    push_str(&mut m, pre);
    let t = id.to_text();
    push_str(&mut m, t.as_str());
    push_str(&mut m, post);
    m
}

/// Apply one edit. An AddCell must take the next free id into an
/// existing region; a RemoveCell must find the cell present and listed;
/// a Retarget must find the `from` operand in place. On failure the
/// fabric is unchanged.
pub fn apply_edit(f: &mut Fabric, e: &Edit) -> (r: Result<(), String>)
    requires
        old(f).wf(),
        old(f).slab@.len() < u32::MAX,
        edit_fits(*e),
    ensures
        match r {
            Ok(_) => edit_error(*old(f), *e) is None && edit_effect(*old(f), *e, *final(f)) && final(f).wf(),
            Err(m) => edit_error(*old(f), *e) == Some(m@) && *final(f) == *old(f),
        },
{
    let ghost o = *f;
    match e {
        Edit::AddCell { id, index, cell } => {
            if id.0 as usize != f.slab.len() {
                let mut m = msg_with_id("AddCell ", *id, " is not the next free id (");
                push_dec(&mut m, f.slab.len() as u64);
                push_str(&mut m, ") \u{2014} history is forged or out of order");
                return Err(m);
            }
            if cell.region.0 as usize >= f.regions.len() {
                let mut m = msg_with_id("AddCell ", *id, ": region ");
                let rt = cell.region.to_text();
                push_str(&mut m, rt.as_str());
                push_str(&mut m, " does not exist");
                return Err(m);
            }
            let c = cell.copy();
            let region = c.region;
            let ghost cv = c@;
            let ghost cs = f.regions@[region.0 as int].cells@;
            let nid = f.insert_cell(region, *index, c);
            proof {
                let p = if (*index as int) < cs.len() { *index as int } else { cs.len() as int };
                assert(nid == *id);
                assert forall|i: int| i != id.0 implies #[trigger] cell_at(*f, i) == cell_at(o, i) by {}
                assert(cell_at(*f, id.0 as int) == Some(cv));
                lemma_add_keeps_content_wf(o, *f, *id, region.0 as int, p, cv);
            }
            f.rebuild_tables();
            Ok(())
        },
        Edit::RemoveCell { id, .. } => {
            if f.cell(*id).is_none() {
                return Err(msg_with_id("RemoveCell ", *id, ": no such cell present"));
            }
            match f.remove_cell(*id) {
                Some(_) => {
                    proof {
                        assert forall|i: int| i != id.0 implies #[trigger] cell_at(*f, i) == cell_at(o, i) by {
                            if 0 <= i < o.slab@.len() {
                                assert(f.slab@[i] == o.slab@[i]);
                            }
                        }
                    }
                    Ok(())
                },
                None => {
                    proof {
                        assert(*f == o);
                    }
                    Err(msg_with_id("RemoveCell ", *id, ": not listed in its region"))
                },
            }
        },
        Edit::Retarget { cell, slot, from, to } => {
            let got = match f.cell(*cell) {
                None => {
                    return Err(msg_with_id("Retarget: ", *cell, " not present"));
                },
                Some(c) => {
                    let s = *slot as usize;
                    if s >= c.operands.len() {
                        let mut m = msg_with_id("Retarget: ", *cell, " has no slot ");
                        push_dec(&mut m, *slot as u64);
                        return Err(m);
                    }
                    c.operands[s]
                },
            };
            if got != *from {
                let mut m = msg_with_id("Retarget: ", *cell, ".");
                push_dec(&mut m, *slot as u64);
                push_str(&mut m, " is ");
                let gt = got.to_text();
                push_str(&mut m, gt.as_str());
                push_str(&mut m, " but history says ");
                let ft = from.to_text();
                push_str(&mut m, ft.as_str());
                push_str(&mut m, " \u{2014} history does not match the fabric");
                return Err(m);
            }
            f.retarget(*cell, *slot, *to);
            Ok(())
        },
    }
}

/// All edits of the first `n` records, in order.
pub open spec fn all_edits(records: Seq<DiffRecord>, n: int) -> Seq<Edit>
    decreases n,
{
    if n <= 0 {
        Seq::empty()
    } else {
        all_edits(records, n - 1) + records[n - 1].edits@
    }
}

proof fn lemma_all_edits_len(records: Seq<DiffRecord>, a: int, b: int)
    requires
        0 <= a <= b,
    ensures
        all_edits(records, a).len() <= all_edits(records, b).len(),
    decreases b - a,
{
    if a < b {
        lemma_all_edits_len(records, a, b - 1);
    }
}

/// `gs` is the run of fabrics of applying `edits` to `f` one by one, each
/// edit succeeding.
pub open spec fn edits_run(f: Fabric, edits: Seq<Edit>, gs: Seq<Fabric>) -> bool {
    &&& gs.len() == edits.len() + 1
    &&& same_content(f, gs[0])
    &&& forall|k: int| 0 <= k < edits.len() ==> #[trigger] step_ok(gs, edits, k)
}

/// Edit `k` applies to run state `k` and gives run state `k + 1`.
pub open spec fn step_ok(gs: Seq<Fabric>, edits: Seq<Edit>, k: int) -> bool {
    edit_error(gs[k], edits[k]) is None && edit_effect(gs[k], edits[k], gs[k + 1])
}

/// Replay a whole history over a starting fabric: every fabric after each
/// record (index 0 is the original), and the final fabric. The first edit
/// that does not apply stops the replay with its error.
pub fn replay(f0: &Fabric, history: &History) -> (r: Result<(Vec<Fabric>, Fabric), String>)
    requires
        f0.wf(),
        f0.slab@.len() + all_edits(history.records@, history.records@.len() as int).len() < u32::MAX,
        forall|q: int, k: int| 0 <= q < history.records@.len() && 0 <= k < history.records@[q].edits@.len()
            ==> edit_fits(#[trigger] history.records@[q].edits@[k]),
    ensures
        match r {
            Ok((stages, fin)) => exists|gs: Seq<Fabric>| {
                &&& #[trigger] edits_run(*f0, all_edits(history.records@, history.records@.len() as int), gs)
                &&& stages@.len() == history.records@.len() + 1
                &&& forall|q: int| 0 <= q <= history.records@.len() ==> same_content(
                    #[trigger] stages@[q],
                    gs[all_edits(history.records@, q).len() as int],
                )
                &&& same_content(fin, gs.last())
            },
            Err(m) => exists|q: int, k: int, gs: Seq<Fabric>| {
                &&& 0 <= q < history.records@.len()
                &&& 0 <= k < history.records@[q].edits@.len()
                &&& #[trigger] edits_run(*f0, all_edits(history.records@, q) + history.records@[q].edits@.take(k), gs)
                &&& edit_error(gs.last(), history.records@[q].edits@[k]) == Some(m@)
            },
        },
{
    let records = &history.records;
    let ghost total = all_edits(records@, records@.len() as int).len();
    let mut stages: Vec<Fabric> = Vec::new();
    stages.push(f0.copy());
    let mut cur = f0.copy();
    let ghost mut gs: Seq<Fabric> = seq![cur];
    let mut q: usize = 0;
    proof {
        assert(all_edits(records@, 0) =~= Seq::<Edit>::empty());
        lemma_same_content_sym(*f0, stages@[0]);
        lemma_same_content_trans(stages@[0], *f0, gs[0]);
    }
    while q < records.len()
        invariant
            records@ == history.records@,
            q <= records@.len(),
            f0.slab@.len() + total < u32::MAX,
            total == all_edits(records@, records@.len() as int).len(),
            forall|a: int, k: int| 0 <= a < records@.len() && 0 <= k < records@[a].edits@.len() ==> edit_fits(
                #[trigger] records@[a].edits@[k],
            ),
            cur.wf(),
            cur.slab@.len() <= f0.slab@.len() + all_edits(records@, q as int).len(),
            edits_run(*f0, all_edits(records@, q as int), gs),
            gs.last() == cur,
            stages@.len() == q + 1,
            forall|a: int| 0 <= a <= q ==> same_content(#[trigger] stages@[a], gs[all_edits(records@, a).len() as int]),
        decreases records@.len() - q,
    {
        let edits = &records[q].edits;
        let ghost base = all_edits(records@, q as int);
        proof {
            lemma_all_edits_len(records@, q + 1, records@.len() as int);
            assert(all_edits(records@, q + 1) == base + edits@);
        }
        let ghost gs0 = gs;
        let mut k: usize = 0;
        while k < edits.len()
            invariant
                gs0.len() == base.len() + 1,
                forall|i: int| 0 <= i <= base.len() ==> gs[i] == gs0[i],
                records@ == history.records@,
                q < records@.len(),
                edits@ == records@[q as int].edits@,
                base == all_edits(records@, q as int),
                k <= edits@.len(),
                f0.slab@.len() + base.len() + edits@.len() < u32::MAX,
                forall|j: int| 0 <= j < edits@.len() ==> edit_fits(#[trigger] edits@[j]),
                cur.wf(),
                cur.slab@.len() <= f0.slab@.len() + base.len() + k,
                edits_run(*f0, base + edits@.take(k as int), gs),
                gs.last() == cur,
                gs.len() == base.len() + k + 1,
            decreases edits@.len() - k,
        {
            let ghost before = cur;
            match apply_edit(&mut cur, &edits[k]) {
                Ok(_) => {},
                Err(m) => {
                    proof {
                        assert(edits_run(*f0, all_edits(history.records@, q as int) + history.records@[q as int].edits@.take(k as int), gs));
                    }
                    return Err(m);
                },
            }
            proof {
                let pre = base + edits@.take(k as int);
                let post = base + edits@.take(k + 1);
                assert(post =~= pre.push(edits@[k as int]));
                let gs2 = gs.push(cur);
                assert forall|j: int| 0 <= j < post.len() implies #[trigger] step_ok(gs2, post, j) by {
                    if j < pre.len() {
                        assert(post[j] == pre[j]);
                        assert(gs2[j] == gs[j] && gs2[j + 1] == gs[j + 1]);
                        assert(step_ok(gs, pre, j));
                    } else {
                        assert(j == pre.len());
                        assert(gs.last() == gs[j]);
                        assert(edit_effect(before, edits@[k as int], cur));
                        assert(gs2[j] == before);
                        assert(gs2[j + 1] == cur);
                        assert(post[j] == edits@[k as int]);
                    }
                }
                assert(gs2[0] == gs[0]);
                assert(gs2.len() == post.len() + 1);
                assert(same_content(*f0, gs2[0]));
                assert(edits_run(*f0, post, gs2));
                gs = gs2;
            }
            k = k + 1;
        }
        proof {
            assert(edits@.take(k as int) =~= edits@);
        }
        let ghost stages0 = stages@;
        let copy = cur.copy();
        stages.push(copy);
        proof {
            lemma_same_content_sym(cur, copy);
            assert forall|a: int| 0 <= a <= q + 1 implies same_content(#[trigger] stages@[a], gs[all_edits(records@, a).len() as int]) by {
                if a <= q {
                    lemma_all_edits_len(records@, a, q as int);
                    assert(stages@[a] == stages0[a]);
                    assert(same_content(stages0[a], gs0[all_edits(records@, a).len() as int]));
                } else {
                    assert(all_edits(records@, a).len() == gs.len() - 1);
                }
            }
        }
        q = q + 1;
    }
    Ok((stages, cur))
}

} // verus!
