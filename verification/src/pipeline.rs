//! Passes as swappable transformations, and the pipeline that runs them:
//! each pass makes a new fabric and a record; the pipeline audits every
//! record's population accounting and appends it to a history.

use vstd::prelude::*;
use crate::chars::push_str;
use crate::conserve::{audit_verdict, conserve_verdict, population_audit};
use crate::constfold::{binary_cells, const_fold, exhausted_message, fold_owed, fold_result, guard_message, operands_in_slab};
use crate::dce::{dce, dce_result, dead_printable, is_dead, lemma_dce_conserves};
use crate::diff::{DiffRecord, History};
use crate::cell::CellKind;
use crate::fabric::{Fabric, cell_at, content_wf, same_content};
use crate::id::CellId;
use crate::ty::ConstVal;
use crate::text::no_float_consts;

verus! {

/// The passes of the library.
#[derive(Clone, Copy, PartialEq, Eq, Debug, Structural)]
pub enum Pass {
    ConstFold,
    Dce,
}

/// The name a pass records.
pub open spec fn pass_name(p: Pass) -> Seq<char> {
    match p {
        Pass::ConstFold => "constfold"@,
        Pass::Dce => "dce"@,
    }
}

impl Pass {
    pub fn name(self) -> (s: &'static str)
        ensures
            s@ == pass_name(self),
    {
        match self {
            Pass::ConstFold => "constfold",
            Pass::Dce => "dce",
        }
    }
}

/// A fabric every pass accepts: well formed, arith and compare cells
/// with two operands, operands inside the slab, no float constant.
pub open spec fn pass_ready(f: Fabric) -> bool {
    &&& f.wf()
    &&& binary_cells(f)
    &&& no_float_consts(f)
    &&& operands_in_slab(f)
}

/// Pass `p` made `g` and `rec` from `f`.
pub open spec fn pass_step(p: Pass, f: Fabric, g: Fabric, rec: DiffRecord) -> bool {
    match p {
        Pass::ConstFold => fold_result(f, g, rec),
        Pass::Dce => dce_result(f, g, rec),
    }
}

proof fn lemma_dce_ready(f: Fabric, g: Fabric, rec: DiffRecord)
    requires
        pass_ready(f),
        dce_result(f, g, rec),
    ensures
        pass_ready(g),
        conserve_verdict(f, g, rec.edits@) is Ok,
{
    lemma_dce_conserves(f, g, rec.edits@);
    assert forall|i: int| #[trigger] cell_at(g, i) is Some implies cell_at(g, i) == cell_at(f, i) by {}
    assert forall|i: int| #[trigger] cell_at(g, i) is Some implies ((cell_at(g, i)->0.kind is Arith || cell_at(g, i)->0.kind is Cmp)
        ==> cell_at(g, i)->0.operands.len() >= 2) by {
        assert(cell_at(f, i) is Some);
    }
    assert forall|i: int| #[trigger] cell_at(g, i) is Some implies !(cell_at(g, i)->0.kind matches crate::cell::KindV::Const {
        val: crate::ty::ConstVal::F64(_),
        ..
    }) by {
        assert(cell_at(f, i) is Some);
    }
    assert forall|i: int, k: int| #[trigger] cell_at(g, i) is Some && 0 <= k < cell_at(g, i)->0.operands.len()
        implies (#[trigger] cell_at(g, i)->0.operands[k]).0 < g.slab@.len() by {
        assert(cell_at(f, i) is Some);
        assert(cell_at(f, i)->0.operands[k] == cell_at(g, i)->0.operands[k]);
    }
}

proof fn lemma_copy_ready(f: Fabric, c: Fabric)
    requires
        pass_ready(f),
        same_content(f, c),
        crate::fabric::content_wf(f) ==> c.wf(),
    ensures
        pass_ready(c),
{
    assert forall|i: int| #[trigger] cell_at(c, i) == cell_at(f, i) by {}
    assert forall|i: int| #[trigger] cell_at(c, i) is Some implies ((cell_at(c, i)->0.kind is Arith || cell_at(c, i)->0.kind is Cmp)
        ==> cell_at(c, i)->0.operands.len() >= 2) by {
        assert(cell_at(f, i) is Some);
    }
    assert forall|i: int| #[trigger] cell_at(c, i) is Some implies !(cell_at(c, i)->0.kind matches crate::cell::KindV::Const {
        val: crate::ty::ConstVal::F64(_),
        ..
    }) by {
        assert(cell_at(f, i) is Some);
    }
    assert forall|i: int, k: int| #[trigger] cell_at(c, i) is Some && 0 <= k < cell_at(c, i)->0.operands.len()
        implies (#[trigger] cell_at(c, i)->0.operands[k]).0 < c.slab@.len() by {
        assert(cell_at(f, i) is Some);
        assert(cell_at(f, i)->0.operands[k] == cell_at(c, i)->0.operands[k]);
    }
}

/// Step `k` of a run: pass `k` made stage `k + 1` and record `k` from
/// stage `k`, the record carries its tick, and the population audit and
/// the conservation check pass on it.
pub open spec fn step_at(passes: Seq<Pass>, stages: Seq<Fabric>, recs: Seq<DiffRecord>, k: int) -> bool {
    &&& pass_step(passes[k], stages[k], stages[k + 1], recs[k])
    &&& recs[k].epoch == k
    &&& audit_verdict(stages[k], stages[k + 1], recs[k].edits@) is Ok
    &&& conserve_verdict(stages[k], stages[k + 1], recs[k].edits@) is Ok
}

/// Run pass `p` on `f`. Every pass keeps the fabric ready for the next,
/// and the conservation check passes on its input, output and record.
pub fn apply_pass(f: &Fabric, p: Pass) -> (r: Result<(Fabric, DiffRecord), String>)
    requires
        pass_ready(*f),
    ensures
        match r {
            Ok((g, rec)) => {
                &&& pass_step(p, *f, g, rec)
                &&& rec.epoch == 0
                &&& pass_ready(g)
                &&& conserve_verdict(*f, g, rec.edits@) is Ok
            },
            Err(e) => p == Pass::ConstFold && !fold_owed(*f) && (e@ == guard_message() || e@ == exhausted_message()),
        },
        p == Pass::Dce ==> r is Ok,
        p == Pass::ConstFold && fold_owed(*f) ==> r is Ok,
{
    match p {
        Pass::ConstFold => const_fold(f),
        Pass::Dce => {
            assert(dead_printable(*f)) by {
                assert forall|i: int| #[trigger] is_dead(*f, i) implies !(cell_at(*f, i)->0.kind matches crate::cell::KindV::Const {
                    val: crate::ty::ConstVal::F64(_),
                    ..
                }) by {}
            }
            let r = dce(f);
            proof {
                if r is Ok {
                    lemma_dce_ready(*f, r->Ok_0.0, r->Ok_0.1);
                }
            }
            r
        },
    }
}

/// The message of a run stopped by the population audit of pass `p`.
pub open spec fn audit_failure(p: Pass, m: Seq<char>) -> Seq<char> {
    "pipeline pass "@ + pass_name(p) + ": population audit: "@ + m
}

/// A run of `passes` from `f` stopped at pass `k` with message `e`: the
/// passes before `k` made `stages` and `recs` as `step_at` says, and pass
/// `k` either failed itself (constant folding where it was not owed, with
/// its own message) or made a record that the population audit refused.
pub open spec fn run_failed_at(
    passes: Seq<Pass>,
    f: Fabric,
    stages: Seq<Fabric>,
    recs: Seq<DiffRecord>,
    k: int,
    e: Seq<char>,
) -> bool {
    &&& 0 <= k < passes.len()
    &&& stages.len() == k + 1
    &&& recs.len() == k
    &&& same_content(f, stages[0])
    &&& pass_ready(stages[k])
    &&& forall|j: int| 0 <= j < k ==> #[trigger] step_at(passes, stages, recs, j)
    &&& {
        ||| passes[k] == Pass::ConstFold && !fold_owed(stages[k]) && (e == guard_message() || e == exhausted_message())
        ||| exists|g: Fabric, rec: DiffRecord| #[trigger] pass_step(passes[k], stages[k], g, rec)
            && audit_verdict(stages[k], g, rec.edits@) is Err
            && e == audit_failure(passes[k], audit_verdict(stages[k], g, rec.edits@)->Err_0)
    }
}

/// A run of `passes` from `f` stopped with message `e`, at some pass.
pub open spec fn run_failed(passes: Seq<Pass>, f: Fabric, e: Seq<char>) -> bool {
    exists|st: Seq<Fabric>, rs: Seq<DiffRecord>, k: int| #[trigger] run_failed_at(passes, f, st, rs, k, e)
}

/// Run `passes` in order from `f`. `stages[0]` holds `f`'s content and
/// `stages[k + 1]` is what pass `k` made of `stages[k]`; each record's
/// population accounting is audited and the record appended to the
/// history with its tick as epoch. The result holds the last stage's
/// content.
pub fn run_passes(f: &Fabric, passes: &[Pass]) -> (r: Result<(Fabric, History, Vec<Fabric>), String>)
    requires
        pass_ready(*f),
        passes@.len() < u64::MAX,
    ensures
        r matches Ok((g, h, stages)) ==> {
            &&& stages@.len() == passes@.len() + 1
            &&& same_content(*f, stages@[0])
            &&& same_content(stages@[passes@.len() as int], g)
            &&& pass_ready(g)
            &&& h.records@.len() == passes@.len()
            &&& forall|k: int| 0 <= k < passes@.len() ==> #[trigger] step_at(passes@, stages@, h.records@, k)
        },
        r matches Err(e) ==> run_failed(passes@, *f, e@),
{
    let first = f.copy();
    proof { lemma_copy_ready(*f, first); }
    let mut stages: Vec<Fabric> = Vec::new();
    stages.push(first);
    let mut h = History::new();
    let mut k: usize = 0;
    while k < passes.len()
        invariant
            k <= passes@.len(),
            passes@.len() < u64::MAX,
            stages@.len() == k + 1,
            same_content(*f, stages@[0]),
            pass_ready(stages@[k as int]),
            h.records@.len() == k,
            forall|j: int| 0 <= j < k ==> #[trigger] step_at(passes@, stages@, h.records@, j),
        decreases passes@.len() - k,
    {
        let p = passes[k];
        let (next, rec) = match apply_pass(&stages[k], p) {
            Ok(x) => x,
            Err(msg) => {
                proof {
                    assert(run_failed_at(passes@, *f, stages@, h.records@, k as int, msg@));
                    assert(run_failed(passes@, *f, msg@));
                }
                return Err(msg);
            },
        };
        proof {
            assert forall|j: int| 0 <= j < rec.edits@.len() implies crate::conserve::removal_printable(
                stages@[k as int],
                #[trigger] rec.edits@[j],
            ) by {
                if let crate::diff::Edit::RemoveCell { id, .. } = rec.edits@[j] {
                    if cell_at(stages@[k as int], id.0 as int) is Some {
                        assert(no_float_consts(stages@[k as int]));
                    }
                }
            }
        }
        match population_audit(&stages[k], &next, &rec) {
            Ok(_) => {},
            Err(am) => {
                let mut m = String::new();
                push_str(&mut m, "pipeline pass ");
                push_str(&mut m, p.name());
                push_str(&mut m, ": population audit: ");
                push_str(&mut m, am.as_str());
                proof {
                    reveal_strlit("pipeline pass ");
                    reveal_strlit(": population audit: ");
                    assert(pass_step(passes@[k as int], stages@[k as int], next, rec));
                    assert(m@ =~= audit_failure(p, audit_verdict(stages@[k as int], next, rec.edits@)->Err_0));
                    assert(run_failed_at(passes@, *f, stages@, h.records@, k as int, m@));
                    assert(run_failed(passes@, *f, m@));
                }
                return Err(m);
            },
        }
        let ghost before = stages@;
        let ghost recs = h.records@;
        let ghost r0 = rec;
        h.push_tick(rec, &next);
        stages.push(next);
        proof {
            assert forall|j: int| 0 <= j < k + 1 implies #[trigger] step_at(passes@, stages@, h.records@, j) by {
                if j < k {
                    assert(step_at(passes@, before, recs, j));
                    assert(stages@[j] == before[j]);
                    assert(stages@[j + 1] == before[j + 1]);
                    assert(h.records@[j] == recs[j]);
                } else {
                    assert(stages@[j] == before[j]);
                }
            }
        }
        k = k + 1;
    }
    let g = stages[k].copy();
    proof { lemma_copy_ready(stages@[k as int], g); }
    Ok((g, h, stages))
}

/// The experiments' pipeline: fold, eliminate, fold, eliminate.
pub open spec fn pipeline_spec() -> Seq<Pass> {
    seq![Pass::ConstFold, Pass::Dce, Pass::ConstFold, Pass::Dce]
}

/// The experiments' pipeline.
pub fn pipeline() -> (v: Vec<Pass>)
    ensures
        v@ == pipeline_spec(),
{
    let mut v: Vec<Pass> = Vec::new();
    v.push(Pass::ConstFold);
    v.push(Pass::Dce);
    v.push(Pass::ConstFold);
    v.push(Pass::Dce);
    v
}

/// Run the experiments' pipeline.
pub fn run(f: &Fabric) -> (r: Result<(Fabric, History, Vec<Fabric>), String>)
    requires
        pass_ready(*f),
    ensures
        r matches Ok((g, h, stages)) ==> {
            &&& stages@.len() == 5
            &&& same_content(*f, stages@[0])
            &&& same_content(stages@[4], g)
            &&& h.records@.len() == 4
            &&& h.records@[0].pass@ == "constfold"@ && h.records@[1].pass@ == "dce"@
            &&& h.records@[2].pass@ == "constfold"@ && h.records@[3].pass@ == "dce"@
            &&& forall|k: int| 0 <= k < 4 ==> #[trigger] step_at(pipeline_spec(), stages@, h.records@, k)
        },
        r matches Err(e) ==> run_failed(pipeline_spec(), *f, e@),
{
    let ps = pipeline();
    let r = run_passes(f, ps.as_slice());
    proof {
        if r is Ok {
            let h = r->Ok_0.1;
            let stages = r->Ok_0.2;
            assert(step_at(ps@, stages@, h.records@, 0));
            assert(step_at(ps@, stages@, h.records@, 1));
            assert(step_at(ps@, stages@, h.records@, 2));
            assert(step_at(ps@, stages@, h.records@, 3));
        }
    }
    r
}


/// The content conditions every pass needs, short of the tables: region
/// lists and slab agree, arith and compare cells have two operands,
/// operands name ids inside the slab, no constant is a float.
pub open spec fn content_ready(f: Fabric) -> bool {
    &&& content_wf(f)
    &&& binary_cells(f)
    &&& no_float_consts(f)
    &&& operands_in_slab(f)
}

proof fn lemma_ready_copy(f: Fabric, c: Fabric)
    requires
        content_ready(f),
        same_content(f, c),
        c.wf(),
    ensures
        pass_ready(c),
{
    assert forall|i: int| #[trigger] cell_at(c, i) == cell_at(f, i) by {}
    assert forall|i: int| #[trigger] cell_at(c, i) is Some implies ((cell_at(c, i)->0.kind is Arith || cell_at(c, i)->0.kind is Cmp)
        ==> cell_at(c, i)->0.operands.len() >= 2) by {
        assert(cell_at(f, i) is Some);
    }
    assert forall|i: int| #[trigger] cell_at(c, i) is Some implies !(cell_at(c, i)->0.kind matches crate::cell::KindV::Const {
        val: crate::ty::ConstVal::F64(_),
        ..
    }) by {
        assert(cell_at(f, i) is Some);
    }
    assert forall|i: int, k: int| #[trigger] cell_at(c, i) is Some && 0 <= k < cell_at(c, i)->0.operands.len()
        implies (#[trigger] cell_at(c, i)->0.operands[k]).0 < c.slab@.len() by {
        assert(cell_at(f, i) is Some);
        assert(cell_at(f, i)->0.operands[k] == cell_at(c, i)->0.operands[k]);
    }
}

fn lists_contain(cells: &Vec<CellId>, id: CellId) -> (b: bool)
    ensures
        b == cells@.contains(id),
{
    let mut k: usize = 0;
    while k < cells.len()
        invariant
            k <= cells@.len(),
            forall|j: int| 0 <= j < k ==> cells@[j] != id,
        decreases cells@.len() - k,
    {
        if cells[k] == id {
            return true;
        }
        k = k + 1;
    }
    false
}

/// A copy of `f` with its tables derived afresh, when the content of `f`
/// is ready for every pass (`content_ready`); `None` exactly when it is
/// not.
pub fn ready_copy(f: &Fabric) -> (r: Option<Fabric>)
    ensures
        r matches Some(c) ==> pass_ready(c) && same_content(*f, c),
        r is None <==> !content_ready(*f),
{
    if f.slab.len() > 4294967295 || f.regions.len() >= 4294967295 {
        return None;
    }
    // every listed cell is present in the region it names, once
    let nr = f.regions.len();
    let mut r: usize = 0;
    while r < nr
        invariant
            nr == f.regions@.len(),
            r <= nr,
            f.slab@.len() <= u32::MAX,
            forall|q: int, k: int| 0 <= q < r && 0 <= k < f.regions@[q].cells@.len() ==> {
                let id = (#[trigger] f.regions@[q].cells@[k]).0 as int;
                &&& cell_at(*f, id) is Some
                &&& cell_at(*f, id)->0.region.0 == q
            },
            forall|q: int, k1: int, k2: int| 0 <= q < r && 0 <= k1 < k2 < f.regions@[q].cells@.len()
                ==> #[trigger] f.regions@[q].cells@[k1] != #[trigger] f.regions@[q].cells@[k2],
        decreases nr - r,
    {
        let cells = &f.regions[r].cells;
        let mut k: usize = 0;
        while k < cells.len()
            invariant
                nr == f.regions@.len(),
                r < nr,
                cells@ == f.regions@[r as int].cells@,
                k <= cells@.len(),
                forall|j: int| 0 <= j < k ==> {
                    let id = (#[trigger] cells@[j]).0 as int;
                    &&& cell_at(*f, id) is Some
                    &&& cell_at(*f, id)->0.region.0 == r
                },
                forall|k1: int, k2: int| 0 <= k1 < k2 < k ==> #[trigger] cells@[k1] != #[trigger] cells@[k2],
            decreases cells@.len() - k,
        {
            let id = cells[k];
            proof {
                assert(f.regions@[r as int].cells@[k as int] == id);
            }
            match f.cell(id) {
                Some(c) => {
                    if c.region.0 as usize != r {
                        return None;
                    }
                },
                None => {
                    return None;
                },
            }
            let mut j: usize = 0;
            while j < k
                invariant
                    j <= k < cells@.len(),
                    nr == f.regions@.len(),
                    r < nr,
                    cells@ == f.regions@[r as int].cells@,
                    id == cells@[k as int],
                    forall|i: int| 0 <= i < j ==> cells@[i] != id,
                decreases k - j,
            {
                if cells[j] == id {
                    proof {
                        assert(f.regions@[r as int].cells@[j as int] == f.regions@[r as int].cells@[k as int]);
                    }
                    return None;
                }
                j = j + 1;
            }
            k = k + 1;
        }
        r = r + 1;
    }
    // every present cell is listed in its region, with operands inside
    // the slab; arith and compare cells have two; no float constant
    let n = f.slab.len();
    let mut i: usize = 0;
    while i < n
        invariant
            n == f.slab@.len(),
            n <= u32::MAX,
            nr == f.regions@.len(),
            nr < u32::MAX,
            i <= n,
            forall|q: int, k: int| 0 <= q < nr && 0 <= k < f.regions@[q].cells@.len() ==> {
                let id = (#[trigger] f.regions@[q].cells@[k]).0 as int;
                &&& cell_at(*f, id) is Some
                &&& cell_at(*f, id)->0.region.0 == q
            },
            forall|q: int, k1: int, k2: int| 0 <= q < nr && 0 <= k1 < k2 < f.regions@[q].cells@.len()
                ==> #[trigger] f.regions@[q].cells@[k1] != #[trigger] f.regions@[q].cells@[k2],
            forall|j: int| 0 <= j < i && #[trigger] cell_at(*f, j) is Some ==> {
                &&& (cell_at(*f, j)->0.region.0 as int) < nr
                &&& f.regions@[cell_at(*f, j)->0.region.0 as int].cells@.contains(CellId(j as u32))
                &&& cell_at(*f, j)->0.operands.len() <= u32::MAX
                &&& ((cell_at(*f, j)->0.kind is Arith || cell_at(*f, j)->0.kind is Cmp) ==> cell_at(*f, j)->0.operands.len() >= 2)
                &&& !(cell_at(*f, j)->0.kind matches crate::cell::KindV::Const { val: crate::ty::ConstVal::F64(_), .. })
                &&& forall|k: int| 0 <= k < cell_at(*f, j)->0.operands.len() ==> (#[trigger] cell_at(*f, j)->0.operands[k]).0 < n
            },
        decreases n - i,
    {
        match &f.slab[i] {
            Some(c) => {
                proof {
                    assert(cell_at(*f, i as int) == Some(c@));
                }
                let ri = c.region.0 as usize;
                if ri >= nr {
                    return None;
                }
                if !lists_contain(&f.regions[ri].cells, CellId(i as u32)) {
                    return None;
                }
                if c.operands.len() > 4294967295 {
                    return None;
                }
                let binary = match &c.kind {
                    CellKind::Arith { .. } | CellKind::Cmp { .. } => true,
                    _ => false,
                };
                if binary && c.operands.len() < 2 {
                    return None;
                }
                match &c.kind {
                    CellKind::Const { val: ConstVal::F64(_), .. } => {
                        return None;
                    },
                    _ => {},
                }
                let mut k: usize = 0;
                while k < c.operands.len()
                    invariant
                        k <= c.operands@.len(),
                        n == f.slab@.len(),
                        i < n,
                        cell_at(*f, i as int) == Some(c@),
                        forall|q: int| 0 <= q < k ==> (#[trigger] c.operands@[q]).0 < n,
                    decreases c.operands@.len() - k,
                {
                    if c.operands[k].0 as usize >= n {
                        proof {
                            assert(cell_at(*f, i as int)->0.operands[k as int] == c.operands@[k as int]);
                        }
                        return None;
                    }
                    k = k + 1;
                }
            },
            None => {},
        }
        i = i + 1;
    }
    proof {
        assert(content_ready(*f));
    }
    let c = f.copy();
    proof {
        lemma_ready_copy(*f, c);
    }
    Some(c)
}

} // verus!
