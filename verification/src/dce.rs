//! Dead code elimination: a cell is live when it is a terminator or feeds
//! one through operand wires; every other cell is removed, each with a
//! ledger entry. Unreachable regions are not removed (their terminators
//! are roots).

use vstd::prelude::*;
use crate::cell::{KindV, copy_ids};
use crate::chars::push_str;
use crate::decay::{DeathCert, DeathCertV, cert_text, is_live, live_closure};
use crate::usetables::row_at;
use crate::diff::{DiffRecord, Edit};
use crate::fabric::{Fabric, cell_at, content_wf, same_content};
use crate::id::CellId;
use crate::text::{cell_text, region_text, render_cell};
use crate::ty::ConstVal;

verus! {

/// The ledger of every cell this pass removes.
pub open spec fn dead_ledger() -> Seq<char> {
    "dead: no path to a terminator"@
}

/// The cells of `ids` that are not live, in order.
pub open spec fn dead_of(f: Fabric, ids: Seq<CellId>) -> Seq<CellId>
    decreases ids.len(),
{
    if ids.len() == 0 {
        Seq::empty()
    } else {
        dead_of(f, ids.drop_last()) + if is_live(f, ids.last().0) { Seq::empty() } else { seq![ids.last()] }
    }
}

/// The cells of `ids` that are live, in order.
pub open spec fn live_of(f: Fabric, ids: Seq<CellId>) -> Seq<CellId>
    decreases ids.len(),
{
    if ids.len() == 0 {
        Seq::empty()
    } else {
        live_of(f, ids.drop_last()) + if is_live(f, ids.last().0) { seq![ids.last()] } else { Seq::empty() }
    }
}

/// The dead cells of the first `n` regions, region by region, each in
/// its region's order: the order in which the pass removes them.
pub open spec fn dead_list(f: Fabric, n: int) -> Seq<CellId>
    decreases n,
{
    if n <= 0 || n > f.regions@.len() {
        Seq::empty()
    } else {
        dead_list(f, n - 1) + dead_of(f, f.regions@[n - 1].cells@)
    }
}

/// Cell `i` is present and not live: the pass removes it.
pub open spec fn is_dead(f: Fabric, i: int) -> bool {
    cell_at(f, i) is Some && !is_live(f, i as u32)
}

/// No dead cell is a float constant (the record renders each removed
/// cell, and floats are outside this library).
pub open spec fn dead_printable(f: Fabric) -> bool {
    forall|i: int| #[trigger] is_dead(f, i) ==> !(cell_at(f, i)->0.kind matches KindV::Const { val: ConstVal::F64(_), .. })
}

/// `edits` removes the cells of `list`, in order, each with the dead
/// ledger and its rendered form in `f`.
pub open spec fn removal_edits(f: Fabric, edits: Seq<Edit>, list: Seq<CellId>) -> bool {
    removal_edits_with(f, edits, list, None)
}

/// The ledger of removed cell `id`: the dead ledger, or under a decay
/// tick `t` the death certificate naming the decay pass, `t`, and the
/// cell's user count in `f`.
pub open spec fn sweep_ledger(f: Fabric, id: CellId, decay: Option<u64>) -> Seq<char> {
    match decay {
        None => dead_ledger(),
        Some(t) => cert_text(DeathCertV {
            cell: id,
            killer: "dce-decay"@,
            tick: t,
            users: row_at(f.tables.users@, id.0 as int).len() as u32,
        }),
    }
}

/// `edits` removes the cells of `list`, in order, each with its sweep
/// ledger and its rendered form in `f`.
pub open spec fn removal_edits_with(f: Fabric, edits: Seq<Edit>, list: Seq<CellId>, decay: Option<u64>) -> bool {
    &&& edits.len() == list.len()
    &&& forall|k: int| 0 <= k < list.len() ==> (#[trigger] edits[k] matches Edit::RemoveCell { id, ledger, summary }
        && id == list[k] && ledger@ == sweep_ledger(f, id, decay) && summary@ == cell_text(f, id))
}

proof fn lemma_of_subset(f: Fabric, ids: Seq<CellId>, x: CellId)
    ensures
        dead_of(f, ids).contains(x) ==> ids.contains(x) && !is_live(f, x.0),
        live_of(f, ids).contains(x) ==> ids.contains(x),
        ids.contains(x) && !is_live(f, x.0) ==> dead_of(f, ids).contains(x),
    decreases ids.len(),
{
    if ids.len() > 0 {
        let init = ids.drop_last();
        lemma_of_subset(f, init, x);
        if init.contains(x) {
            let j = choose|j: int| 0 <= j < init.len() && init[j] == x;
            assert(ids[j] == x);
        }
        if dead_of(f, ids).contains(x) {
            let d0 = dead_of(f, init);
            let j = choose|j: int| 0 <= j < dead_of(f, ids).len() && dead_of(f, ids)[j] == x;
            if j < d0.len() {
                assert(d0[j] == x);
            } else {
                assert(ids[ids.len() - 1] == x);
            }
        }
        if live_of(f, ids).contains(x) {
            let l0 = live_of(f, init);
            let j = choose|j: int| 0 <= j < live_of(f, ids).len() && live_of(f, ids)[j] == x;
            if j < l0.len() {
                assert(l0[j] == x);
            } else {
                assert(ids[ids.len() - 1] == x);
            }
        }
        if ids.contains(x) && !is_live(f, x.0) {
            let j = choose|j: int| 0 <= j < ids.len() && ids[j] == x;
            if j < init.len() {
                assert(init[j] == x);
                let d0 = dead_of(f, init);
                let m = choose|m: int| 0 <= m < d0.len() && d0[m] == x;
                assert(dead_of(f, ids)[m] == x);
            } else {
                assert(dead_of(f, ids)[dead_of(f, init).len() as int] == x);
            }
        }
    }
}

/// The dead list of the first `n` regions holds exactly the dead cells
/// listed in them.
proof fn lemma_dead_list(f: Fabric, n: int, x: CellId)
    requires
        content_wf(f),
        0 <= n <= f.regions@.len(),
    ensures
        dead_list(f, n).contains(x) <==> (is_dead(f, x.0 as int) && cell_at(f, x.0 as int)->0.region.0 < n),
    decreases n,
{
    if n > 0 {
        lemma_dead_list(f, n - 1, x);
        let ids = f.regions@[n - 1].cells@;
        let d0 = dead_list(f, n - 1);
        let d1 = dead_of(f, ids);
        lemma_of_subset(f, ids, x);
        if dead_list(f, n).contains(x) {
            let j = choose|j: int| 0 <= j < dead_list(f, n).len() && dead_list(f, n)[j] == x;
            if j < d0.len() {
                assert(d0[j] == x);
            } else {
                assert(d1[j - d0.len()] == x);
                assert(d1.contains(x));
                let k = choose|k: int| 0 <= k < ids.len() && ids[k] == x;
                assert(f.regions@[n - 1].cells@[k] == x);
            }
        }
        if is_dead(f, x.0 as int) && cell_at(f, x.0 as int)->0.region.0 < n {
            if cell_at(f, x.0 as int)->0.region.0 < n - 1 {
                let j = choose|j: int| 0 <= j < d0.len() && d0[j] == x;
                assert(dead_list(f, n)[j] == x);
            } else {
                assert(f.regions@[n - 1].cells@.contains(CellId(x.0)));
                assert(CellId(x.0) == x);
                let j = choose|j: int| 0 <= j < d1.len() && d1[j] == x;
                assert(dead_list(f, n)[d0.len() + j] == x);
            }
        }
    }
}

/// Facts about the `k`-th cell of region `ri` when it is dead.
proof fn lemma_dead_bits(f: Fabric, ids: Seq<CellId>, k: int, ri: int)
    requires
        content_wf(f),
        0 <= ri < f.regions@.len(),
        ids == f.regions@[ri].cells@,
        0 <= k < ids.len(),
        !is_live(f, ids[k].0),
    ensures
        is_dead(f, ids[k].0 as int),
        cell_at(f, ids[k].0 as int)->0.region.0 == ri,
        !(dead_list(f, ri) + dead_of(f, ids.take(k))).contains(ids[k]),
        !live_of(f, ids.take(k)).contains(ids[k]),
        dead_of(f, ids.take(k + 1)) == dead_of(f, ids.take(k)).push(ids[k]),
        live_of(f, ids.take(k + 1)) == live_of(f, ids.take(k)),
{
    let id = ids[k];
    assert(f.regions@[ri].cells@[k] == id);
    let tk = ids.take(k);
    assert(ids.take(k + 1).drop_last() =~= tk);
    lemma_dead_list(f, ri, id);
    lemma_of_subset(f, tk, id);
    if tk.contains(id) {
        let j = choose|j: int| 0 <= j < tk.len() && tk[j] == id;
        assert(f.regions@[ri].cells@[j] == f.regions@[ri].cells@[k]);
    }
    let d0 = dead_list(f, ri);
    let d1 = dead_of(f, tk);
    if (d0 + d1).contains(id) {
        let j = choose|j: int| 0 <= j < (d0 + d1).len() && (d0 + d1)[j] == id;
        if j < d0.len() {
            assert(d0[j] == id);
        } else {
            assert(d1[j - d0.len()] == id);
        }
    }
    assert(dead_of(f, ids.take(k + 1)) =~= dead_of(f, tk).push(id));
    assert(live_of(f, ids.take(k + 1)) =~= live_of(f, tk));
}

fn contains_cell(v: &Vec<CellId>, x: CellId) -> (b: bool)
    ensures
        b == v@.contains(x),
{
    let mut i: usize = 0;
    while i < v.len()
        invariant
            i <= v@.len(),
            forall|k: int| 0 <= k < i ==> v@[k] != x,
        decreases v@.len() - i,
    {
        if v[i].0 == x.0 {
            assert(v@[i as int] == x);
            return true;
        }
        i = i + 1;
    }
    false
}

/// What dead code elimination makes of `f`: `g` and the record `rec`.
pub open spec fn dce_result(f: Fabric, g: Fabric, rec: DiffRecord) -> bool {
    sweep_result(f, g, rec, "dce"@, None)
}

/// What a sweep of the dead cells makes of `f`, recording under `pass`.
pub open spec fn sweep_result(f: Fabric, g: Fabric, rec: DiffRecord, pass: Seq<char>, decay: Option<u64>) -> bool {
    &&& g.wf()
    &&& forall|i: int| #[trigger] cell_at(g, i) == if is_dead(f, i) { None } else { cell_at(f, i) }
    &&& g.slab@.len() == f.slab@.len()
    &&& g.regions@.len() == f.regions@.len()
    &&& forall|q: int| 0 <= q < f.regions@.len() ==> (#[trigger] g.regions@[q]).name@ == f.regions@[q].name@
        && g.regions@[q].cells@ == live_of(f, f.regions@[q].cells@)
    &&& rec.pass@ == pass
    &&& rec.notes@.len() == 0
    &&& removal_edits_with(f, rec.edits@, dead_list(f, f.regions@.len() as int), decay)
}

/// Dead code elimination. Every cell that is not live (see `is_live`) is
/// removed; region lists keep their order; one removal edit per dead
/// cell, region by region in list order, each with the dead ledger and
/// the cell's rendered form. A well-formed fabric stays well formed.
pub fn dce(f: &Fabric) -> (r: Result<(Fabric, DiffRecord), String>)
    requires
        f.wf(),
        dead_printable(*f),
    ensures
        r matches Ok((g, rec)) && dce_result(*f, g, rec) && rec.epoch == 0,
{
    proof { reveal_strlit("dce"); }
    Ok(sweep(f, "dce", None))
}

/// The decay pass: the sweep of `dce`, each removal carrying a death
/// certificate that names the decay pass, the tick, and the cell's user
/// count in `f`; the record lands at the tick.
pub fn dce_decay(f: &Fabric, ctx: &crate::manager::TickCtx) -> (r: Result<(Fabric, DiffRecord), String>)
    requires
        f.wf(),
        dead_printable(*f),
    ensures
        r matches Ok((g, rec)) && sweep_result(*f, g, rec, "dce-decay"@, Some(ctx.tick)) && rec.epoch == ctx.tick,
{
    let (g, mut rec) = sweep(f, "dce-decay", Some(ctx.tick));
    rec.epoch = ctx.tick;
    Ok((g, rec))
}

fn sweep(f: &Fabric, pass: &'static str, decay: Option<u64>) -> (r: (Fabric, DiffRecord))
    requires
        f.wf(),
        dead_printable(*f),
    ensures
        sweep_result(*f, r.0, r.1, pass@, decay) && r.1.epoch == 0,
{
    let live = live_closure(f);
    let mut g = f.copy();
    assert(same_content(*f, g));
    let mut rec = DiffRecord::new(pass);
    let n = g.regions.len();
    let mut ri: usize = 0;
    proof {
        assert forall|q: int| 0 <= q < n implies (#[trigger] g.regions@[q]).name@ == f.regions@[q].name@
            && g.regions@[q].cells@ == f.regions@[q].cells@ by {}
        assert forall|i: int| #[trigger] cell_at(g, i) == cell_at(*f, i) by {}
        assert(rec.edits@ =~= Seq::<Edit>::empty());
    }
    while ri < n
        invariant
            f.wf(),
            dead_printable(*f),
            g.wf(),
            ri <= n,
            n == f.regions@.len(),
            g.regions@.len() == n,
            g.slab@.len() == f.slab@.len(),
            forall|x: CellId| #[trigger] live@.contains(x) <==> is_live(*f, x.0),
            forall|q: int| 0 <= q < n ==> (#[trigger] g.regions@[q]).name@ == f.regions@[q].name@,
            forall|q: int| 0 <= q < ri ==> (#[trigger] g.regions@[q]).cells@ == live_of(*f, f.regions@[q].cells@),
            forall|q: int| ri <= q < n ==> (#[trigger] g.regions@[q]).cells@ == f.regions@[q].cells@,
            forall|i: int| #[trigger] cell_at(g, i) == if dead_list(*f, ri as int).contains(CellId(i as u32)) && 0 <= i
                < f.slab@.len() { None } else { cell_at(*f, i) },
            rec.pass@ == pass@,
            rec.epoch == 0,
            rec.notes@.len() == 0,
            removal_edits_with(*f, rec.edits@, dead_list(*f, ri as int), decay),
        decreases n - ri,
    {
        let ids = copy_ids(&g.regions[ri].cells);
        let ghost base = dead_list(*f, ri as int);
        let mut k: usize = 0;
        proof {
            assert(ids@.take(0) =~= Seq::<CellId>::empty());
            assert(g.regions@[ri as int].cells@ =~= live_of(*f, ids@.take(0)) + ids@.skip(0));
            assert(base + dead_of(*f, ids@.take(0)) =~= base);
        }
        while k < ids.len()
            invariant
                f.wf(),
                dead_printable(*f),
                g.wf(),
                n == f.regions@.len(),
                ri < n,
                ids@ == f.regions@[ri as int].cells@,
                k <= ids@.len(),
                base == dead_list(*f, ri as int),
                g.regions@.len() == n,
                g.slab@.len() == f.slab@.len(),
                forall|x: CellId| #[trigger] live@.contains(x) <==> is_live(*f, x.0),
                forall|q: int| 0 <= q < n ==> (#[trigger] g.regions@[q]).name@ == f.regions@[q].name@,
                forall|q: int| 0 <= q < ri ==> (#[trigger] g.regions@[q]).cells@ == live_of(*f, f.regions@[q].cells@),
                forall|q: int| ri < q < n ==> (#[trigger] g.regions@[q]).cells@ == f.regions@[q].cells@,
                g.regions@[ri as int].cells@ == live_of(*f, ids@.take(k as int)) + ids@.skip(k as int),
                forall|i: int| #[trigger] cell_at(g, i) == if (base + dead_of(*f, ids@.take(k as int))).contains(
                    CellId(i as u32),
                ) && 0 <= i < f.slab@.len() { None } else { cell_at(*f, i) },
                rec.pass@ == pass@,
                rec.epoch == 0,
                rec.notes@.len() == 0,
                removal_edits_with(*f, rec.edits@, base + dead_of(*f, ids@.take(k as int)), decay),
            decreases ids@.len() - k,
        {
            let id = ids[k];
            let ghost tk = ids@.take(k as int);
            let ghost tk1 = ids@.take(k + 1);
            proof {
                assert(tk1.drop_last() =~= tk);
                assert(tk1.last() == id);
            }
            if contains_cell(&live, id) {
                proof {
                    assert(live_of(*f, tk1) =~= live_of(*f, tk).push(id));
                    assert(dead_of(*f, tk1) =~= dead_of(*f, tk));
                    assert(g.regions@[ri as int].cells@ =~= live_of(*f, tk1) + ids@.skip(k + 1));
                }
            } else {
                proof {
                    lemma_dead_bits(*f, ids@, k as int, ri as int);
                    assert(cell_at(g, id.0 as int) == cell_at(*f, id.0 as int));
                }
                let summary = render_cell(&g, id);
                let ghost g0 = g;
                let ghost cs = g.regions@[ri as int].cells@;
                let ghost lp = live_of(*f, tk);
                proof {
                    assert(cs[lp.len() as int] == id);
                    assert(cs.contains(id));
                    assert forall|r: crate::id::RegionId| #[trigger] region_text(g0, r) == region_text(*f, r) by {}
                    crate::roundbuild::lemma_cell_text_same(*f, g0, id);
                }
                let _ = g.remove_cell(id);
                proof {
                    let p = choose|p: int| 0 <= p < cs.len() && cs[p] == id && (forall|q: int| 0 <= q < p ==> cs[q] != id)
                        && g.regions@[ri as int].cells@ == cs.remove(p);
                    if p < lp.len() {
                        assert(lp[p] == id);
                        assert(lp.contains(id));
                    }
                    if p > lp.len() {
                        assert(cs[lp.len() as int] != id);
                    }
                    assert(cs.remove(p) =~= lp + ids@.skip(k + 1));
                    assert(g.regions@[ri as int].cells@ =~= live_of(*f, tk1) + ids@.skip(k + 1));
                    assert forall|q: int| 0 <= q < n && q != ri implies #[trigger] g.regions@[q] == g0.regions@[q] by {}
                    assert((base + dead_of(*f, tk1)) =~= (base + dead_of(*f, tk)).push(id));
                    assert forall|i: int| #[trigger] cell_at(g, i) == if (base + dead_of(*f, tk1)).contains(CellId(i as u32))
                        && 0 <= i < f.slab@.len() { None } else { cell_at(*f, i) } by {
                        let l0 = base + dead_of(*f, tk);
                        if 0 <= i < f.slab@.len() && i != id.0 {
                            assert(cell_at(g, i) == cell_at(g0, i));
                            if l0.push(id).contains(CellId(i as u32)) {
                                let j = choose|j: int| 0 <= j < l0.push(id).len() && l0.push(id)[j] == CellId(i as u32);
                                assert(j < l0.len());
                                assert(l0[j] == CellId(i as u32));
                            }
                            if l0.contains(CellId(i as u32)) {
                                let j = choose|j: int| 0 <= j < l0.len() && l0[j] == CellId(i as u32);
                                assert(l0.push(id)[j] == CellId(i as u32));
                            }
                        } else if i == id.0 {
                            assert(l0.push(id)[l0.len() as int] == id);
                            assert(CellId(i as u32) == id);
                        }
                    }
                }
                let ledger = match decay {
                    None => {
                        let mut l = String::new();
                        push_str(&mut l, "dead: no path to a terminator");
                        l
                    },
                    Some(t) => {
                        let users = f.uses_of(id).len() as u32;
                        let cert = DeathCert { cell: id, killer: String::from_str("dce-decay"), tick: t, users };
                        cert.render()
                    },
                };
                rec.edits.push(Edit::RemoveCell { id, ledger, summary });
                proof {
                    let l1 = base + dead_of(*f, tk1);
                    assert forall|j: int| 0 <= j < l1.len() implies (#[trigger] rec.edits@[j] matches Edit::RemoveCell {
                        id,
                        ledger,
                        summary,
                    } && id == l1[j] && ledger@ == sweep_ledger(*f, id, decay) && summary@ == cell_text(*f, id)) by {
                        if j < l1.len() - 1 {
                            assert(l1[j] == (base + dead_of(*f, tk))[j]);
                        }
                    }
                }
            }
            k = k + 1;
        }
        proof {
            assert(ids@.take(ids@.len() as int) =~= ids@);
            assert(ids@.skip(ids@.len() as int) =~= Seq::<CellId>::empty());
            assert(g.regions@[ri as int].cells@ =~= live_of(*f, ids@));
        }
        ri = ri + 1;
    }
    proof {
        assert forall|i: int| #[trigger] cell_at(g, i) == if is_dead(*f, i) { None } else { cell_at(*f, i) } by {
            if 0 <= i < f.slab@.len() {
                let x = CellId(i as u32);
                assert(x.0 as int == i);
                lemma_dead_list(*f, n as int, x);
                if cell_at(*f, i) is Some {
                    assert((cell_at(*f, i)->0.region.0 as int) < n);
                }
                assert(cell_at(g, i) == if dead_list(*f, n as int).contains(x) { None } else { cell_at(*f, i) });
            }
        }
    }
    assert(g.regions@.len() == f.regions@.len());
    assert(removal_edits_with(*f, rec.edits@, dead_list(*f, f.regions@.len() as int), decay));
    (g, rec)
}


/// Dead code elimination conserves: the conservation check passes on
/// its input, its output and its record. Every removed cell carries the
/// dead ledger, and no cell appears.
pub proof fn lemma_dce_conserves(f: Fabric, g: Fabric, edits: Seq<Edit>)
    requires
        f.wf(),
        forall|i: int| #[trigger] cell_at(g, i) == if is_dead(f, i) { None } else { cell_at(f, i) },
        removal_edits(f, edits, dead_list(f, f.regions@.len() as int)),
    ensures
        crate::conserve::conserve_verdict(f, g, edits) is Ok,
{
    let list = dead_list(f, f.regions@.len() as int);
    reveal_strlit("dead: no path to a terminator");
    assert(!crate::diff::all_ws(dead_ledger())) by {
        assert(!crate::lex::is_ws(dead_ledger()[0]));
    }
    crate::conserve::lemma_blank_scan(edits, 0);
    assert forall|j: int| 0 <= j < edits.len() implies !(#[trigger] edits[j] matches Edit::RemoveCell {
        ledger,
        ..
    } && crate::diff::all_ws(ledger@)) by {
        assert(edits[j] matches Edit::RemoveCell { ledger, .. } && ledger@ == dead_ledger());
    }
    crate::conserve::lemma_vanish_scan(f, g, edits, 0, f.slab@.len() as int);
    assert forall|i: int| 0 <= i < f.slab@.len() implies !#[trigger] crate::conserve::vanished(f, g, edits, i) by {
        if cell_at(f, i) is Some && cell_at(g, i) is None {
            let x = CellId(i as u32);
            assert(x.0 as int == i);
            assert(is_dead(f, i));
            lemma_dead_list(f, f.regions@.len() as int, x);
            let k = choose|k: int| 0 <= k < list.len() && list[k] == x;
            assert(edits[k] matches Edit::RemoveCell { id, .. } && id == x);
        }
    }
    crate::conserve::lemma_appear_scan(f, g, edits, 0, g.slab@.len() as int);
    assert forall|i: int| 0 <= i < g.slab@.len() implies !#[trigger] crate::conserve::appeared(f, g, edits, i) by {}
}


/// The decay pass's certificates verify: every removal in its record
/// passes the death check against the fabric it swept.
pub proof fn lemma_decay_deaths_verify(f: Fabric, g: Fabric, rec: DiffRecord)
    requires
        f.wf(),
        sweep_result(f, g, rec, "dce-decay"@, Some(rec.epoch)),
    ensures
        forall|k: int| 0 <= k < rec.edits@.len() ==> #[trigger] crate::decay::death_verdict(
            f,
            rec.pass@,
            rec.epoch,
            rec.edits@[k],
        ) is None,
{
    let list = dead_list(f, f.regions@.len() as int);
    assert forall|k: int| 0 <= k < rec.edits@.len() implies #[trigger] crate::decay::death_verdict(
        f,
        rec.pass@,
        rec.epoch,
        rec.edits@[k],
    ) is None by {
        let id = list[k];
        assert(list.contains(id));
        lemma_dead_list(f, f.regions@.len() as int, id);
        let c = DeathCertV {
            cell: id,
            killer: "dce-decay"@,
            tick: rec.epoch,
            users: row_at(f.tables.users@, id.0 as int).len() as u32,
        };
        reveal_strlit("dce-decay");
        assert(!c.killer.contains(' ')) by {
            assert forall|i: int| 0 <= i < c.killer.len() implies c.killer[i] != ' ' by {}
        }
        crate::decay::lemma_cert_round_trip(c);
    }
}

} // verus!
