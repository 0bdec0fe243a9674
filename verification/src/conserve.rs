//! The conservation law, made mechanical: every value admitted into a
//! transform is either delivered or explicitly dropped with a ledger
//! entry; it never silently vanishes.

use vstd::prelude::*;
use crate::cell::{Cell, CellV, KindV};
use crate::chars::push_str;
use crate::dec::{dec, push_dec};
use crate::order::sort_ids;
use crate::text::{kind_text, push_kind};
use crate::ty::ConstVal;
use crate::diff::{DiffRecord, Edit, History, all_ws, blank};
use crate::fabric::{Fabric, cell_at};
use crate::id::{CellId, cell_id_text};
use crate::region::contains_id;

verus! {

/// The population must reconcile: after == before + added - removed.
#[derive(Debug)]
pub struct PopulationReport {
    pub before: usize,
    pub after: usize,
    pub added: usize,
    pub removed: usize,
}

/// Some edit removes `id`.
pub open spec fn removed_in(edits: Seq<Edit>, id: CellId) -> bool {
    exists|k: int| 0 <= k < edits.len() && (#[trigger] edits[k] matches Edit::RemoveCell { id: i, .. } && i == id)
}

/// Some edit removes `id` with a ledger entry that is not blank.
pub open spec fn ledgered_in(edits: Seq<Edit>, id: CellId) -> bool {
    exists|k: int| 0 <= k < edits.len() && (#[trigger] edits[k] matches Edit::RemoveCell { id: i, ledger, .. } && i == id
        && !all_ws(ledger@))
}

/// Some edit adds `id`.
pub open spec fn added_in(edits: Seq<Edit>, id: CellId) -> bool {
    exists|k: int| 0 <= k < edits.len() && (#[trigger] edits[k] matches Edit::AddCell { id: i, .. } && i == id)
}

/// The first removal from edit `k` on whose ledger entry is blank.
pub open spec fn blank_scan(edits: Seq<Edit>, k: int) -> Option<CellId>
    decreases edits.len() - k,
{
    if k < 0 || k >= edits.len() {
        None
    } else {
        match edits[k] {
            Edit::RemoveCell { id, ledger, .. } => if all_ws(ledger@) {
                Some(id)
            } else {
                blank_scan(edits, k + 1)
            },
            _ => blank_scan(edits, k + 1),
        }
    }
}

/// Cell `i` was present before, is gone after, and no edit removes it.
pub open spec fn vanished(before: Fabric, after: Fabric, edits: Seq<Edit>, i: int) -> bool {
    cell_at(before, i) is Some && cell_at(after, i) is None && !removed_in(edits, CellId(i as u32))
}

/// Cell `i` is present after, was absent before, and no edit adds it.
pub open spec fn appeared(before: Fabric, after: Fabric, edits: Seq<Edit>, i: int) -> bool {
    cell_at(after, i) is Some && cell_at(before, i) is None && !added_in(edits, CellId(i as u32))
}

/// The first id from `i` below `n` that vanished.
pub open spec fn vanish_scan(before: Fabric, after: Fabric, edits: Seq<Edit>, i: int, n: int) -> Option<int>
    decreases n - i,
{
    if i < 0 || i >= n {
        None
    } else if vanished(before, after, edits, i) {
        Some(i)
    } else {
        vanish_scan(before, after, edits, i + 1, n)
    }
}

/// The first id from `i` below `n` that appeared.
pub open spec fn appear_scan(before: Fabric, after: Fabric, edits: Seq<Edit>, i: int, n: int) -> Option<int>
    decreases n - i,
{
    if i < 0 || i >= n {
        None
    } else if appeared(before, after, edits, i) {
        Some(i)
    } else {
        appear_scan(before, after, edits, i + 1, n)
    }
}

/// The verdict of the conservation check: a blank ledger entry first,
/// then the lowest vanished id, then the lowest appeared id.
pub open spec fn conserve_verdict(before: Fabric, after: Fabric, edits: Seq<Edit>) -> Result<(), Seq<char>> {
    match blank_scan(edits, 0) {
        Some(id) => Err("conservation violated: "@ + cell_id_text(id) + " removed with a blank ledger entry"@),
        None => match vanish_scan(before, after, edits, 0, before.slab@.len() as int) {
            Some(i) => Err("conservation violated: "@ + cell_id_text(CellId(i as u32))
                + " vanished without a ledger entry"@),
            None => match appear_scan(before, after, edits, 0, after.slab@.len() as int) {
                Some(i) => Err("conservation violated: "@ + cell_id_text(CellId(i as u32))
                    + " appeared without an AddCell edit"@),
                None => Ok(()),
            },
        },
    }
}

pub proof fn lemma_blank_scan(edits: Seq<Edit>, k: int)
    requires
        0 <= k <= edits.len(),
    ensures
        blank_scan(edits, k) is None <==> forall|j: int| k <= j < edits.len() ==> !(#[trigger] edits[j] matches Edit::RemoveCell {
            ledger,
            ..
        } && all_ws(ledger@)),
    decreases edits.len() - k,
{
    if k < edits.len() {
        lemma_blank_scan(edits, k + 1);
    }
}

pub proof fn lemma_vanish_scan(before: Fabric, after: Fabric, edits: Seq<Edit>, i: int, n: int)
    requires
        0 <= i <= n,
    ensures
        vanish_scan(before, after, edits, i, n) is None <==> forall|j: int| i <= j < n ==> !#[trigger] vanished(
            before,
            after,
            edits,
            j,
        ),
    decreases n - i,
{
    if i < n {
        lemma_vanish_scan(before, after, edits, i + 1, n);
    }
}

pub proof fn lemma_appear_scan(before: Fabric, after: Fabric, edits: Seq<Edit>, i: int, n: int)
    requires
        0 <= i <= n,
    ensures
        appear_scan(before, after, edits, i, n) is None <==> forall|j: int| i <= j < n ==> !#[trigger] appeared(
            before,
            after,
            edits,
            j,
        ),
    decreases n - i,
{
    if i < n {
        lemma_appear_scan(before, after, edits, i + 1, n);
    }
}

/// The conservation law: when the check passes, every cell present
/// before and gone after was removed by an edit with a non-blank ledger
/// entry, and every cell present after and absent before was added by an
/// edit.
pub proof fn lemma_conservation(before: Fabric, after: Fabric, edits: Seq<Edit>)
    requires
        conserve_verdict(before, after, edits) is Ok,
    ensures
        forall|i: int| #[trigger] cell_at(before, i) is Some && cell_at(after, i) is None ==> ledgered_in(
            edits,
            CellId(i as u32),
        ),
        forall|i: int| #[trigger] cell_at(after, i) is Some && cell_at(before, i) is None ==> added_in(
            edits,
            CellId(i as u32),
        ),
{
    lemma_blank_scan(edits, 0);
    lemma_vanish_scan(before, after, edits, 0, before.slab@.len() as int);
    lemma_appear_scan(before, after, edits, 0, after.slab@.len() as int);
    assert forall|i: int| #[trigger] cell_at(before, i) is Some && cell_at(after, i) is None implies ledgered_in(
        edits,
        CellId(i as u32),
    ) by {
        assert(!vanished(before, after, edits, i));
        let k = choose|k: int| 0 <= k < edits.len() && (#[trigger] edits[k] matches Edit::RemoveCell { id: x, .. } && x
            == CellId(i as u32));
        assert(edits[k] matches Edit::RemoveCell { ledger, .. } && !all_ws(ledger@));
    }
    assert forall|i: int| #[trigger] cell_at(after, i) is Some && cell_at(before, i) is None implies added_in(
        edits,
        CellId(i as u32),
    ) by {
        assert(!appeared(before, after, edits, i));
    }
}

/// Whether some edit removes `id`.
fn removes(edits: &Vec<Edit>, id: CellId) -> (b: bool)
    ensures
        b == removed_in(edits@, id),
{
    let mut k: usize = 0;
    while k < edits.len()
        invariant
            k <= edits@.len(),
            forall|j: int| 0 <= j < k ==> !(#[trigger] edits@[j] matches Edit::RemoveCell { id: i, .. } && i == id),
        decreases edits@.len() - k,
    {
        if let Edit::RemoveCell { id: i, .. } = &edits[k] {
            if *i == id {
                return true;
            }
        }
        k = k + 1;
    }
    false
}

/// Whether some edit adds `id`.
fn adds(edits: &Vec<Edit>, id: CellId) -> (b: bool)
    ensures
        b == added_in(edits@, id),
{
    let mut k: usize = 0;
    while k < edits.len()
        invariant
            k <= edits@.len(),
            forall|j: int| 0 <= j < k ==> !(#[trigger] edits@[j] matches Edit::AddCell { id: i, .. } && i == id),
        decreases edits@.len() - k,
    {
        if let Edit::AddCell { id: i, .. } = &edits[k] {
            if *i == id {
                return true;
            }
        }
        k = k + 1;
    }
    false
}

/// One conservation message: the prefix, the cell, and the rest.
fn conserve_msg(id: CellId, rest: &str) -> (m: String)
    ensures
        m@ == "conservation violated: "@ + cell_id_text(id) + rest@,
{
    let mut m = String::new();
    push_str(&mut m, "conservation violated: ");
    let t = id.to_text();
    push_str(&mut m, t.as_str());
    push_str(&mut m, rest);
    m
}

/// Check one tick against the conservation law: a removal with a blank
/// ledger entry, a cell that vanished without a removal, or a cell that
/// appeared without an addition is reported, in that order, lowest id
/// first.
pub fn check(before: &Fabric, after: &Fabric, rec: &DiffRecord) -> (r: Result<(), String>)
    requires
        before.slab@.len() <= u32::MAX,
        after.slab@.len() <= u32::MAX,
    ensures
        match (r, conserve_verdict(*before, *after, rec.edits@)) {
            (Ok(_), Ok(_)) => true,
            (Err(m), Err(s)) => m@ == s,
            _ => false,
        },
{
    let edits = &rec.edits;
    let mut k: usize = 0;
    while k < edits.len()
        invariant
            edits@ == rec.edits@,
            k <= edits@.len(),
            blank_scan(edits@, 0) == blank_scan(edits@, k as int),
        decreases edits@.len() - k,
    {
        if let Edit::RemoveCell { id, ledger, .. } = &edits[k] {
            if blank(ledger.as_str()) {
                assert(blank_scan(edits@, k as int) == Some(*id));
                let m = conserve_msg(*id, " removed with a blank ledger entry");
                return Err(m);
            }
        }
        k = k + 1;
    }
    let n = before.slab.len();
    let mut i: usize = 0;
    while i < n
        invariant
            edits@ == rec.edits@,
            n == before.slab@.len(),
            n <= u32::MAX,
            i <= n,
            blank_scan(edits@, 0) is None,
            vanish_scan(*before, *after, edits@, 0, n as int) == vanish_scan(*before, *after, edits@, i as int, n as int),
        decreases n - i,
    {
        let id = CellId(i as u32);
        if before.cell(id).is_some() && after.cell(id).is_none() && !removes(edits, id) {
            assert(vanished(*before, *after, edits@, i as int));
            assert(vanish_scan(*before, *after, edits@, i as int, n as int) == Some(i as int));
            return Err(conserve_msg(id, " vanished without a ledger entry"));
        }
        i = i + 1;
    }
    let n2 = after.slab.len();
    let mut j: usize = 0;
    while j < n2
        invariant
            edits@ == rec.edits@,
            n2 == after.slab@.len(),
            n2 <= u32::MAX,
            j <= n2,
            blank_scan(edits@, 0) is None,
            vanish_scan(*before, *after, edits@, 0, before.slab@.len() as int) is None,
            appear_scan(*before, *after, edits@, 0, n2 as int) == appear_scan(*before, *after, edits@, j as int, n2 as int),
        decreases n2 - j,
    {
        let id = CellId(j as u32);
        if after.cell(id).is_some() && before.cell(id).is_none() && !adds(edits, id) {
            assert(appeared(*before, *after, edits@, j as int));
            assert(appear_scan(*before, *after, edits@, j as int, n2 as int) == Some(j as int));
            return Err(conserve_msg(id, " appeared without an AddCell edit"));
        }
        j = j + 1;
    }
    Ok(())
}

/// Some record of the history removes `id` with a non-blank ledger entry.
pub open spec fn hist_ledgered(records: Seq<DiffRecord>, id: CellId) -> bool {
    exists|r: int| 0 <= r < records.len() && #[trigger] ledgered_in(records[r].edits@, id)
}

/// Some record of the history adds `id`.
pub open spec fn hist_added(records: Seq<DiffRecord>, id: CellId) -> bool {
    exists|r: int| 0 <= r < records.len() && #[trigger] added_in(records[r].edits@, id)
}

/// The first id from `i` below `n` present in `a`, absent from `b` and
/// not covered.
pub open spec fn gone_scan(a: Fabric, b: Fabric, covered: spec_fn(CellId) -> bool, i: int, n: int) -> Option<int>
    decreases n - i,
{
    if i < 0 || i >= n {
        None
    } else if cell_at(a, i) is Some && cell_at(b, i) is None && !covered(CellId(i as u32)) {
        Some(i)
    } else {
        gone_scan(a, b, covered, i + 1, n)
    }
}

proof fn lemma_gone_scan(a: Fabric, b: Fabric, covered: spec_fn(CellId) -> bool, i: int, n: int)
    requires
        0 <= i <= n,
    ensures
        gone_scan(a, b, covered, i, n) is None <==> forall|j: int| i <= j < n ==> !(#[trigger] cell_at(a, j) is Some
            && cell_at(b, j) is None && !covered(CellId(j as u32))),
    decreases n - i,
{
    if i < n {
        lemma_gone_scan(a, b, covered, i + 1, n);
    }
}

/// The verdict of the conservation check across a whole pipeline: the
/// lowest id that vanished without a ledgered removal anywhere in the
/// history, then the lowest that appeared without an addition.
pub open spec fn pipeline_verdict(before: Fabric, after: Fabric, records: Seq<DiffRecord>) -> Result<(), Seq<char>> {
    match gone_scan(before, after, |id: CellId| hist_ledgered(records, id), 0, before.slab@.len() as int) {
        Some(i) => Err("conservation violated: "@ + cell_id_text(CellId(i as u32)) + " vanished across pipeline"@),
        None => match gone_scan(after, before, |id: CellId| hist_added(records, id), 0, after.slab@.len() as int) {
            Some(i) => Err("conservation violated: "@ + cell_id_text(CellId(i as u32)) + " appeared across pipeline"@),
            None => Ok(()),
        },
    }
}

/// The conservation law over a pipeline: when the check passes, every
/// cell of the first fabric missing from the last was removed with a
/// non-blank ledger entry by some tick, and every cell new in the last
/// was added by some tick.
pub proof fn lemma_pipeline_conservation(before: Fabric, after: Fabric, records: Seq<DiffRecord>)
    requires
        pipeline_verdict(before, after, records) is Ok,
    ensures
        forall|i: int| #[trigger] cell_at(before, i) is Some && cell_at(after, i) is None ==> hist_ledgered(
            records,
            CellId(i as u32),
        ),
        forall|i: int| #[trigger] cell_at(after, i) is Some && cell_at(before, i) is None ==> hist_added(
            records,
            CellId(i as u32),
        ),
{
    let c1 = |id: CellId| hist_ledgered(records, id);
    let c2 = |id: CellId| hist_added(records, id);
    lemma_gone_scan(before, after, c1, 0, before.slab@.len() as int);
    lemma_gone_scan(after, before, c2, 0, after.slab@.len() as int);
    assert forall|i: int| #[trigger] cell_at(before, i) is Some && cell_at(after, i) is None implies hist_ledgered(
        records,
        CellId(i as u32),
    ) by {
        assert(!(cell_at(before, i) is Some && cell_at(after, i) is None && !c1(CellId(i as u32))));
    }
    assert forall|i: int| #[trigger] cell_at(after, i) is Some && cell_at(before, i) is None implies hist_added(
        records,
        CellId(i as u32),
    ) by {
        assert(!(cell_at(after, i) is Some && cell_at(before, i) is None && !c2(CellId(i as u32))));
    }
}

/// Whether some record removes `id` with a non-blank ledger entry.
fn history_removed_contains(h: &History, id: CellId) -> (b: bool)
    ensures
        b == hist_ledgered(h.records@, id),
{
    let mut r: usize = 0;
    while r < h.records.len()
        invariant
            r <= h.records@.len(),
            forall|q: int| 0 <= q < r ==> !#[trigger] ledgered_in(h.records@[q].edits@, id),
        decreases h.records@.len() - r,
    {
        let edits = &h.records[r].edits;
        let mut k: usize = 0;
        while k < edits.len()
            invariant
                r < h.records@.len(),
                edits@ == h.records@[r as int].edits@,
                k <= edits@.len(),
                forall|j: int| 0 <= j < k ==> !(#[trigger] edits@[j] matches Edit::RemoveCell { id: i, ledger, .. } && i
                    == id && !all_ws(ledger@)),
            decreases edits@.len() - k,
        {
            if let Edit::RemoveCell { id: i, ledger, .. } = &edits[k] {
                if *i == id && !blank(ledger.as_str()) {
                    assert(ledgered_in(h.records@[r as int].edits@, id));
                    return true;
                }
            }
            k = k + 1;
        }
        r = r + 1;
    }
    false
}

/// Whether some record adds `id`.
fn history_added_contains(h: &History, id: CellId) -> (b: bool)
    ensures
        b == hist_added(h.records@, id),
{
    let mut r: usize = 0;
    while r < h.records.len()
        invariant
            r <= h.records@.len(),
            forall|q: int| 0 <= q < r ==> !#[trigger] added_in(h.records@[q].edits@, id),
        decreases h.records@.len() - r,
    {
        if adds(&h.records[r].edits, id) {
            assert(added_in(h.records@[r as int].edits@, id));
            return true;
        }
        r = r + 1;
    }
    false
}

/// The conservation law over a whole pipeline history: first fabric
/// against last.
pub fn check_pipeline(before: &Fabric, after: &Fabric, history: &History) -> (r: Result<(), String>)
    requires
        before.slab@.len() <= u32::MAX,
        after.slab@.len() <= u32::MAX,
    ensures
        match (r, pipeline_verdict(*before, *after, history.records@)) {
            (Ok(_), Ok(_)) => true,
            (Err(m), Err(s)) => m@ == s,
            _ => false,
        },
{
    let ghost c1 = |id: CellId| hist_ledgered(history.records@, id);
    let ghost c2 = |id: CellId| hist_added(history.records@, id);
    let n = before.slab.len();
    let mut i: usize = 0;
    while i < n
        invariant
            n == before.slab@.len(),
            n <= u32::MAX,
            i <= n,
            c1 == (|id: CellId| hist_ledgered(history.records@, id)),
            gone_scan(*before, *after, c1, 0, n as int) == gone_scan(*before, *after, c1, i as int, n as int),
        decreases n - i,
    {
        let id = CellId(i as u32);
        if before.cell(id).is_some() && after.cell(id).is_none() && !history_removed_contains(history, id) {
            assert(gone_scan(*before, *after, c1, i as int, n as int) == Some(i as int));
            return Err(conserve_msg(id, " vanished across pipeline"));
        }
        i = i + 1;
    }
    let n2 = after.slab.len();
    let mut j: usize = 0;
    while j < n2
        invariant
            n2 == after.slab@.len(),
            n2 <= u32::MAX,
            j <= n2,
            c1 == (|id: CellId| hist_ledgered(history.records@, id)),
            c2 == (|id: CellId| hist_added(history.records@, id)),
            gone_scan(*before, *after, c1, 0, before.slab@.len() as int) is None,
            gone_scan(*after, *before, c2, 0, n2 as int) == gone_scan(*after, *before, c2, j as int, n2 as int),
        decreases n2 - j,
    {
        let id = CellId(j as u32);
        if after.cell(id).is_some() && before.cell(id).is_none() && !history_added_contains(history, id) {
            assert(gone_scan(*after, *before, c2, j as int, n2 as int) == Some(j as int));
            return Err(conserve_msg(id, " appeared across pipeline"));
        }
        j = j + 1;
    }
    Ok(())
}

/// What `{:?}` makes of a string: quoted, with escapes.
pub uninterp spec fn debug_text(s: Seq<char>) -> Seq<char>;

/// `format!("{:?}", s)`: the Debug form of a string, as std's `Debug`
/// impl for `str` writes it (quotes and `char::escape_debug` escapes).
/// Claimed: the result is `debug_text` of the argument, a function of
/// the argument alone.
#[verifier::external_body]
fn debug_str(s: &str) -> (r: String)
    ensures
        r@ == debug_text(s@),
{
    format!("{:?}", s)
}

/// Faults of ledger multiplication and no-op retargets, scanning edits
/// from `k` with the ids removed (`rem`) and added (`add`) so far.
pub open spec fn dup_fault(edits: Seq<Edit>, k: int, rem: Set<CellId>, add: Set<CellId>) -> Option<Seq<char>>
    decreases edits.len() - k,
{
    if k < 0 || k >= edits.len() {
        None
    } else {
        match edits[k] {
            Edit::RemoveCell { id, .. } => if rem.contains(id) {
                Some("ledger multiplication: "@ + cell_id_text(id) + " removed more than once in one tick"@)
            } else {
                dup_fault(edits, k + 1, rem.insert(id), add)
            },
            Edit::AddCell { id, .. } => if add.contains(id) {
                Some("ledger multiplication: "@ + cell_id_text(id) + " added twice in one tick"@)
            } else {
                dup_fault(edits, k + 1, rem, add.insert(id))
            },
            Edit::Retarget { cell, slot, from, to } => if from == to {
                Some("no-op retarget "@ + cell_id_text(cell) + "."@ + dec(slot as nat) + ": "@ + cell_id_text(from)
                    + " -> "@ + cell_id_text(to) + " inflates the ledger"@)
            } else {
                dup_fault(edits, k + 1, rem, add)
            },
        }
    }
}

/// What is wrong with a removal of `id`, if anything.
pub open spec fn removal_fault(before: Fabric, after: Fabric, id: CellId) -> Option<Seq<char>> {
    if cell_at(before, id.0 as int) is None {
        Some("forged removal: "@ + cell_id_text(id) + " was not present before the tick"@)
    } else if cell_at(after, id.0 as int) is Some {
        Some("forged ledger: "@ + cell_id_text(id) + " carries a RemoveCell entry but survived the tick"@)
    } else {
        None
    }
}

/// What is wrong with an addition of `id`, if anything.
pub open spec fn addition_fault(before: Fabric, after: Fabric, id: CellId) -> Option<Seq<char>> {
    if (id.0 as int) < before.slab@.len() {
        Some("id resurrection: "@ + cell_id_text(id) + " was already assigned (ids are append-only)"@)
    } else if cell_at(after, id.0 as int) is None {
        Some("phantom add: "@ + cell_id_text(id) + " recorded but absent after the tick"@)
    } else {
        None
    }
}

/// `i` is the lowest removed id whose removal is at fault.
pub open spec fn first_bad_removal(before: Fabric, after: Fabric, edits: Seq<Edit>, i: u32) -> bool {
    &&& removed_in(edits, CellId(i))
    &&& removal_fault(before, after, CellId(i)) is Some
    &&& forall|j: u32| j < i && #[trigger] removed_in(edits, CellId(j)) ==> removal_fault(before, after, CellId(j)) is None
}

/// `i` is the lowest added id whose addition is at fault.
pub open spec fn first_bad_addition(before: Fabric, after: Fabric, edits: Seq<Edit>, i: u32) -> bool {
    &&& added_in(edits, CellId(i))
    &&& addition_fault(before, after, CellId(i)) is Some
    &&& forall|j: u32| j < i && #[trigger] added_in(edits, CellId(j)) ==> addition_fault(before, after, CellId(j)) is None
}

/// Cell `c` (under id `id`) after the first `n` edits' retargets of it,
/// as the pass saw it.
pub open spec fn retargeted(c: CellV, id: CellId, edits: Seq<Edit>, n: int) -> CellV
    decreases n,
{
    if n <= 0 {
        c
    } else {
        let p = retargeted(c, id, edits, n - 1);
        match edits[n - 1] {
            Edit::Retarget { cell, slot, from, to } => if cell == id && (slot as int) < p.operands.len()
                && p.operands[slot as int] == from {
                CellV { operands: p.operands.update(slot as int, to), ..p }
            } else {
                p
            },
            _ => p,
        }
    }
}

/// The rendered form of removed cell `id` as the pass saw it.
pub open spec fn seen_text(before: Fabric, edits: Seq<Edit>, id: CellId) -> Seq<char> {
    match cell_at(before, id.0 as int) {
        None => cell_id_text(id) + " = <removed>"@,
        Some(c) => cell_id_text(id) + " = "@ + kind_text(before, retargeted(c, id, edits, edits.len() as int)),
    }
}

/// The first removal from edit `k` on whose summary is not the cell as
/// the pass saw it.
pub open spec fn summary_fault(before: Fabric, edits: Seq<Edit>, k: int) -> Option<Seq<char>>
    decreases edits.len() - k,
{
    if k < 0 || k >= edits.len() {
        None
    } else {
        match edits[k] {
            Edit::RemoveCell { id, summary, .. } => if summary@ != seen_text(before, edits, id) {
                Some("lying summary: "@ + cell_id_text(id) + " recorded as "@ + debug_text(summary@)
                    + " but the cell was "@ + debug_text(seen_text(before, edits, id)))
            } else {
                summary_fault(before, edits, k + 1)
            },
            _ => summary_fault(before, edits, k + 1),
        }
    }
}

/// The number of present cells among ids below `n`.
pub open spec fn count_present(f: Fabric, n: int) -> nat
    decreases n,
{
    if n <= 0 {
        0
    } else {
        count_present(f, n - 1) + if cell_at(f, n - 1) is Some {
            1nat
        } else {
            0nat
        }
    }
}

/// The number of removals among the first `n` edits.
pub open spec fn count_removes(edits: Seq<Edit>, n: int) -> nat
    decreases n,
{
    if n <= 0 {
        0
    } else {
        count_removes(edits, n - 1) + if edits[n - 1] is RemoveCell {
            1nat
        } else {
            0nat
        }
    }
}

/// The number of additions among the first `n` edits.
pub open spec fn count_adds(edits: Seq<Edit>, n: int) -> nat
    decreases n,
{
    if n <= 0 {
        0
    } else {
        count_adds(edits, n - 1) + if edits[n - 1] is AddCell {
            1nat
        } else {
            0nat
        }
    }
}

/// The verdict of the population audit of one tick: ledger
/// multiplication and no-op retargets (in edit order), forged removals
/// (lowest id first), forged additions (lowest id first), lying
/// summaries (in edit order), then the population count. On success:
/// cells before, cells after, additions, removals.
pub open spec fn audit_verdict(before: Fabric, after: Fabric, edits: Seq<Edit>) -> Result<(nat, nat, nat, nat), Seq<char>> {
    let b = count_present(before, before.slab@.len() as int);
    let a = count_present(after, after.slab@.len() as int);
    let na = count_adds(edits, edits.len() as int);
    let nr = count_removes(edits, edits.len() as int);
    match dup_fault(edits, 0, Set::empty(), Set::empty()) {
        Some(m) => Err(m),
        None => if exists|i: u32| first_bad_removal(before, after, edits, i) {
            let i = choose|i: u32| first_bad_removal(before, after, edits, i);
            Err(removal_fault(before, after, CellId(i))->0)
        } else if exists|i: u32| first_bad_addition(before, after, edits, i) {
            let i = choose|i: u32| first_bad_addition(before, after, edits, i);
            Err(addition_fault(before, after, CellId(i))->0)
        } else if nr > 0 && summary_fault(before, edits, 0) is Some {
            Err(summary_fault(before, edits, 0)->0)
        } else if a != b + na - nr {
            Err("population does not reconcile: "@ + dec(b) + " + "@ + dec(na) + " adds - "@ + dec(nr)
                + " removes != "@ + dec(a) + " cells after"@)
        } else {
            Ok((b, a, na, nr))
        },
    }
}

/// Some edit before `k` removes `id`.
pub open spec fn removed_before(edits: Seq<Edit>, k: int, id: CellId) -> bool {
    exists|j: int| 0 <= j < k && (#[trigger] edits[j] matches Edit::RemoveCell { id: i, .. } && i == id)
}

/// Some edit before `k` adds `id`.
pub open spec fn added_before(edits: Seq<Edit>, k: int, id: CellId) -> bool {
    exists|j: int| 0 <= j < k && (#[trigger] edits[j] matches Edit::AddCell { id: i, .. } && i == id)
}

/// A cell id's message: `pre`, the id, `post`.
fn id_msg(pre: &str, id: CellId, post: &str) -> (m: String)
    ensures
        m@ == pre@ + cell_id_text(id) + post@,
{
    let mut m = String::new();
    push_str(&mut m, pre);
    let t = id.to_text();
    push_str(&mut m, t.as_str());
    push_str(&mut m, post);
    m
}

/// Scan the edits for ledger multiplication and no-op retargets; on
/// success, the removed and the added ids, each without duplicates.
fn scan_ledger(edits: &Vec<Edit>) -> (r: Result<(Vec<u32>, Vec<u32>), String>)
    ensures
        match r {
            Ok((rm, ad)) => {
                &&& dup_fault(edits@, 0, Set::empty(), Set::empty()) is None
                &&& rm@.no_duplicates()
                &&& ad@.no_duplicates()
                &&& forall|x: u32| #[trigger] rm@.contains(x) <==> removed_in(edits@, CellId(x))
                &&& forall|x: u32| #[trigger] ad@.contains(x) <==> added_in(edits@, CellId(x))
                &&& rm@.len() == count_removes(edits@, edits@.len() as int)
                &&& ad@.len() == count_adds(edits@, edits@.len() as int)
            },
            Err(m) => dup_fault(edits@, 0, Set::empty(), Set::empty()) == Some(m@),
        },
{
    let mut rm: Vec<u32> = Vec::new();
    let mut ad: Vec<u32> = Vec::new();
    let ghost mut rem: Set<CellId> = Set::empty();
    let ghost mut add: Set<CellId> = Set::empty();
    let mut k: usize = 0;
    assert(rem =~= Set::new(|c: CellId| removed_before(edits@, 0, c)));
    assert(add =~= Set::new(|c: CellId| added_before(edits@, 0, c)));
    while k < edits.len()
        invariant
            k <= edits@.len(),
            dup_fault(edits@, 0, Set::empty(), Set::empty()) == dup_fault(edits@, k as int, rem, add),
            rem == Set::new(|c: CellId| removed_before(edits@, k as int, c)),
            add == Set::new(|c: CellId| added_before(edits@, k as int, c)),
            forall|x: u32| #[trigger] rm@.contains(x) <==> removed_before(edits@, k as int, CellId(x)),
            forall|x: u32| #[trigger] ad@.contains(x) <==> added_before(edits@, k as int, CellId(x)),
            rm@.no_duplicates(),
            ad@.no_duplicates(),
            rm@.len() == count_removes(edits@, k as int),
            ad@.len() == count_adds(edits@, k as int),
        decreases edits@.len() - k,
    {
        let ghost rm0 = rm@;
        let ghost ad0 = ad@;
        match &edits[k] {
            Edit::RemoveCell { id, .. } => {
                if contains_id(&rm, id.0) {
                    assert(rem.contains(*id));
                    return Err(id_msg("ledger multiplication: ", *id, " removed more than once in one tick"));
                }
                rm.push(id.0);
                proof {
                    assert(!rem.contains(*id));
                    assert(rm@[rm@.len() - 1] == id.0);
                    assert forall|x: u32| #[trigger] rm@.contains(x) <==> removed_before(edits@, k + 1, CellId(x)) by {
                        if rm@.contains(x) {
                            let q = choose|q: int| 0 <= q < rm@.len() && rm@[q] == x;
                            if q < rm0.len() {
                                assert(rm0[q] == x);
                                assert(rm0.contains(x));
                                let j = choose|j: int| 0 <= j < k && (#[trigger] edits@[j] matches Edit::RemoveCell { id: i, .. } && i == CellId(x));
                            } else {
                                assert(edits@[k as int] matches Edit::RemoveCell { id: i, .. } && i == CellId(x));
                            }
                        }
                        if removed_before(edits@, k + 1, CellId(x)) {
                            let j = choose|j: int| 0 <= j < k + 1 && (#[trigger] edits@[j] matches Edit::RemoveCell { id: i, .. } && i == CellId(x));
                            if j < k {
                                assert(rm0.contains(x));
                                let q = choose|q: int| 0 <= q < rm0.len() && rm0[q] == x;
                                assert(rm@[q] == x);
                            }
                        }
                    }
                    assert forall|x: u32| #[trigger] ad@.contains(x) <==> added_before(edits@, k + 1, CellId(x)) by {
                        if added_before(edits@, k + 1, CellId(x)) {
                            let j = choose|j: int| 0 <= j < k + 1 && (#[trigger] edits@[j] matches Edit::AddCell { id: i, .. } && i == CellId(x));
                        }
                        if ad@.contains(x) {
                            let j = choose|j: int| 0 <= j < k && (#[trigger] edits@[j] matches Edit::AddCell { id: i, .. } && i == CellId(x));
                        }
                    }
                    assert forall|a: int, b: int| 0 <= a < rm@.len() && 0 <= b < rm@.len() && a != b implies rm@[a] != rm@[b] by {
                        if a < rm0.len() && b < rm0.len() {
                            assert(rm@[a] == rm0[a] && rm@[b] == rm0[b]);
                        } else if a < rm0.len() {
                            assert(rm@[a] == rm0[a]);
                            assert(rm0.contains(rm0[a]));
                        } else if b < rm0.len() {
                            assert(rm@[b] == rm0[b]);
                            assert(rm0.contains(rm0[b]));
                        }
                    }
                    assert(rem.insert(*id) =~= Set::new(|c: CellId| removed_before(edits@, k + 1, c)));
                    assert(add =~= Set::new(|c: CellId| added_before(edits@, k + 1, c)));
                }
                proof {
                    rem = rem.insert(*id);
                }
            },
            Edit::AddCell { id, .. } => {
                if contains_id(&ad, id.0) {
                    assert(add.contains(*id));
                    return Err(id_msg("ledger multiplication: ", *id, " added twice in one tick"));
                }
                ad.push(id.0);
                proof {
                    assert(!add.contains(*id));
                    assert(ad@[ad@.len() - 1] == id.0);
                    assert forall|x: u32| #[trigger] ad@.contains(x) <==> added_before(edits@, k + 1, CellId(x)) by {
                        if ad@.contains(x) {
                            let q = choose|q: int| 0 <= q < ad@.len() && ad@[q] == x;
                            if q < ad0.len() {
                                assert(ad0[q] == x);
                                assert(ad0.contains(x));
                                let j = choose|j: int| 0 <= j < k && (#[trigger] edits@[j] matches Edit::AddCell { id: i, .. } && i == CellId(x));
                            } else {
                                assert(edits@[k as int] matches Edit::AddCell { id: i, .. } && i == CellId(x));
                            }
                        }
                        if added_before(edits@, k + 1, CellId(x)) {
                            let j = choose|j: int| 0 <= j < k + 1 && (#[trigger] edits@[j] matches Edit::AddCell { id: i, .. } && i == CellId(x));
                            if j < k {
                                assert(ad0.contains(x));
                                let q = choose|q: int| 0 <= q < ad0.len() && ad0[q] == x;
                                assert(ad@[q] == x);
                            }
                        }
                    }
                    assert forall|x: u32| #[trigger] rm@.contains(x) <==> removed_before(edits@, k + 1, CellId(x)) by {
                        if removed_before(edits@, k + 1, CellId(x)) {
                            let j = choose|j: int| 0 <= j < k + 1 && (#[trigger] edits@[j] matches Edit::RemoveCell { id: i, .. } && i == CellId(x));
                        }
                        if rm@.contains(x) {
                            let j = choose|j: int| 0 <= j < k && (#[trigger] edits@[j] matches Edit::RemoveCell { id: i, .. } && i == CellId(x));
                        }
                    }
                    assert forall|a: int, b: int| 0 <= a < ad@.len() && 0 <= b < ad@.len() && a != b implies ad@[a] != ad@[b] by {
                        if a < ad0.len() && b < ad0.len() {
                            assert(ad@[a] == ad0[a] && ad@[b] == ad0[b]);
                        } else if a < ad0.len() {
                            assert(ad@[a] == ad0[a]);
                            assert(ad0.contains(ad0[a]));
                        } else if b < ad0.len() {
                            assert(ad@[b] == ad0[b]);
                            assert(ad0.contains(ad0[b]));
                        }
                    }
                    assert(add.insert(*id) =~= Set::new(|c: CellId| added_before(edits@, k + 1, c)));
                    assert(rem =~= Set::new(|c: CellId| removed_before(edits@, k + 1, c)));
                }
                proof {
                    add = add.insert(*id);
                }
            },
            Edit::Retarget { cell, slot, from, to } => {
                if *from == *to {
                    let mut m = id_msg("no-op retarget ", *cell, ".");
                    push_dec(&mut m, *slot as u64);
                    push_str(&mut m, ": ");
                    let ft = from.to_text();
                    push_str(&mut m, ft.as_str());
                    push_str(&mut m, " -> ");
                    let tt = to.to_text();
                    push_str(&mut m, tt.as_str());
                    push_str(&mut m, " inflates the ledger");
                    return Err(m);
                }
                proof {
                    assert forall|x: u32| #[trigger] rm@.contains(x) <==> removed_before(edits@, k + 1, CellId(x)) by {
                        if removed_before(edits@, k + 1, CellId(x)) {
                            let j = choose|j: int| 0 <= j < k + 1 && (#[trigger] edits@[j] matches Edit::RemoveCell { id: i, .. } && i == CellId(x));
                        }
                        if rm@.contains(x) {
                            let j = choose|j: int| 0 <= j < k && (#[trigger] edits@[j] matches Edit::RemoveCell { id: i, .. } && i == CellId(x));
                        }
                    }
                    assert forall|x: u32| #[trigger] ad@.contains(x) <==> added_before(edits@, k + 1, CellId(x)) by {
                        if added_before(edits@, k + 1, CellId(x)) {
                            let j = choose|j: int| 0 <= j < k + 1 && (#[trigger] edits@[j] matches Edit::AddCell { id: i, .. } && i == CellId(x));
                        }
                        if ad@.contains(x) {
                            let j = choose|j: int| 0 <= j < k && (#[trigger] edits@[j] matches Edit::AddCell { id: i, .. } && i == CellId(x));
                        }
                    }
                    assert(rem =~= Set::new(|c: CellId| removed_before(edits@, k + 1, c)));
                    assert(add =~= Set::new(|c: CellId| added_before(edits@, k + 1, c)));
                }
            },
        }
        k = k + 1;
    }
    proof {
        assert forall|x: u32| #[trigger] rm@.contains(x) <==> removed_in(edits@, CellId(x)) by {
            if removed_in(edits@, CellId(x)) {
                let j = choose|j: int| 0 <= j < edits@.len() && (#[trigger] edits@[j] matches Edit::RemoveCell { id: i, .. } && i == CellId(x));
            }
        }
        assert forall|x: u32| #[trigger] ad@.contains(x) <==> added_in(edits@, CellId(x)) by {
            if added_in(edits@, CellId(x)) {
                let j = choose|j: int| 0 <= j < edits@.len() && (#[trigger] edits@[j] matches Edit::AddCell { id: i, .. } && i == CellId(x));
            }
        }
    }
    Ok((rm, ad))
}

proof fn lemma_first_bad_removal_unique(before: Fabric, after: Fabric, edits: Seq<Edit>, i: u32, j: u32)
    requires
        first_bad_removal(before, after, edits, i),
        first_bad_removal(before, after, edits, j),
    ensures
        i == j,
{
    if i < j {
        assert(removed_in(edits, CellId(i)));
    } else if j < i {
        assert(removed_in(edits, CellId(j)));
    }
}

proof fn lemma_first_bad_addition_unique(before: Fabric, after: Fabric, edits: Seq<Edit>, i: u32, j: u32)
    requires
        first_bad_addition(before, after, edits, i),
        first_bad_addition(before, after, edits, j),
    ensures
        i == j,
{
    if i < j {
        assert(added_in(edits, CellId(i)));
    } else if j < i {
        assert(added_in(edits, CellId(j)));
    }
}

/// The fault of the lowest removed id whose removal is at fault.
fn removal_problem(before: &Fabric, after: &Fabric, edits: &Vec<Edit>, ids: &Vec<u32>) -> (r: Option<String>)
    requires
        crate::order::ascending(ids@),
        forall|x: u32| #[trigger] ids@.contains(x) <==> removed_in(edits@, CellId(x)),
    ensures
        match r {
            Some(m) => exists|i: u32| #[trigger] first_bad_removal(*before, *after, edits@, i) && m@ == removal_fault(
                *before,
                *after,
                CellId(i),
            )->0,
            None => forall|i: u32| !#[trigger] first_bad_removal(*before, *after, edits@, i),
        },
{
    let mut k: usize = 0;
    while k < ids.len()
        invariant
            k <= ids@.len(),
            crate::order::ascending(ids@),
            forall|x: u32| #[trigger] ids@.contains(x) <==> removed_in(edits@, CellId(x)),
            forall|q: int| 0 <= q < k ==> removal_fault(*before, *after, CellId(#[trigger] ids@[q])) is None,
        decreases ids@.len() - k,
    {
        let id = CellId(ids[k]);
        let fault: Option<String> = if before.cell(id).is_none() {
            Some(id_msg("forged removal: ", id, " was not present before the tick"))
        } else if after.cell(id).is_some() {
            Some(id_msg("forged ledger: ", id, " carries a RemoveCell entry but survived the tick"))
        } else {
            None
        };
        if let Some(m) = fault {
            proof {
                assert(ids@.contains(ids@[k as int]));
                assert forall|j: u32| j < ids@[k as int] && #[trigger] removed_in(edits@, CellId(j)) implies removal_fault(
                    *before,
                    *after,
                    CellId(j),
                ) is None by {
                    assert(ids@.contains(j));
                    let q = choose|q: int| 0 <= q < ids@.len() && ids@[q] == j;
                    if q >= k {
                        if q > k {
                            assert(ids@[k as int] < ids@[q]);
                        }
                    }
                }
                assert(first_bad_removal(*before, *after, edits@, ids@[k as int]));
            }
            return Some(m);
        }
        k = k + 1;
    }
    proof {
        assert forall|i: u32| !#[trigger] first_bad_removal(*before, *after, edits@, i) by {
            if removed_in(edits@, CellId(i)) {
                assert(ids@.contains(i));
                let q = choose|q: int| 0 <= q < ids@.len() && ids@[q] == i;
                assert(removal_fault(*before, *after, CellId(ids@[q])) is None);
            }
        }
    }
    None
}

/// The fault of the lowest added id whose addition is at fault.
fn addition_problem(before: &Fabric, after: &Fabric, edits: &Vec<Edit>, ids: &Vec<u32>) -> (r: Option<String>)
    requires
        crate::order::ascending(ids@),
        forall|x: u32| #[trigger] ids@.contains(x) <==> added_in(edits@, CellId(x)),
    ensures
        match r {
            Some(m) => exists|i: u32| #[trigger] first_bad_addition(*before, *after, edits@, i) && m@ == addition_fault(
                *before,
                *after,
                CellId(i),
            )->0,
            None => forall|i: u32| !#[trigger] first_bad_addition(*before, *after, edits@, i),
        },
{
    let mut k: usize = 0;
    while k < ids.len()
        invariant
            k <= ids@.len(),
            crate::order::ascending(ids@),
            forall|x: u32| #[trigger] ids@.contains(x) <==> added_in(edits@, CellId(x)),
            forall|q: int| 0 <= q < k ==> addition_fault(*before, *after, CellId(#[trigger] ids@[q])) is None,
        decreases ids@.len() - k,
    {
        let id = CellId(ids[k]);
        let fault: Option<String> = if (ids[k] as usize) < before.slab.len() {
            Some(id_msg("id resurrection: ", id, " was already assigned (ids are append-only)"))
        } else if after.cell(id).is_none() {
            Some(id_msg("phantom add: ", id, " recorded but absent after the tick"))
        } else {
            None
        };
        if let Some(m) = fault {
            proof {
                assert(ids@.contains(ids@[k as int]));
                assert forall|j: u32| j < ids@[k as int] && #[trigger] added_in(edits@, CellId(j)) implies addition_fault(
                    *before,
                    *after,
                    CellId(j),
                ) is None by {
                    assert(ids@.contains(j));
                    let q = choose|q: int| 0 <= q < ids@.len() && ids@[q] == j;
                    if q >= k {
                        if q > k {
                            assert(ids@[k as int] < ids@[q]);
                        }
                    }
                }
                assert(first_bad_addition(*before, *after, edits@, ids@[k as int]));
            }
            return Some(m);
        }
        k = k + 1;
    }
    proof {
        assert forall|i: u32| !#[trigger] first_bad_addition(*before, *after, edits@, i) by {
            if added_in(edits@, CellId(i)) {
                assert(ids@.contains(i));
                let q = choose|q: int| 0 <= q < ids@.len() && ids@[q] == i;
                assert(addition_fault(*before, *after, CellId(ids@[q])) is None);
            }
        }
    }
    None
}

/// A copy of `c` after the record's retargets of cell `id`, in order.
fn seen_cell(c: &Cell, id: CellId, edits: &Vec<Edit>) -> (r: Cell)
    ensures
        r@ == retargeted(c@, id, edits@, edits@.len() as int),
{
    let mut r = c.copy();
    let mut n: usize = 0;
    while n < edits.len()
        invariant
            n <= edits@.len(),
            r@ == retargeted(c@, id, edits@, n as int),
        decreases edits@.len() - n,
    {
        if let Edit::Retarget { cell, slot, from, to } = &edits[n] {
            let s = *slot as usize;
            if *cell == id && s < r.operands.len() && r.operands[s] == *from {
                r.operands.set(s, *to);
            }
        }
        n = n + 1;
    }
    r
}

proof fn lemma_retargeted_kind(c: CellV, id: CellId, edits: Seq<Edit>, n: int)
    ensures
        retargeted(c, id, edits, n).kind == c.kind,
        retargeted(c, id, edits, n).region == c.region,
    decreases n,
{
    if n > 0 {
        lemma_retargeted_kind(c, id, edits, n - 1);
    }
}

/// Edit `e`, when a removal, names a cell of `f` that is no float
/// constant (the audit renders every removed cell).
pub open spec fn removal_printable(f: Fabric, e: Edit) -> bool {
    match e {
        Edit::RemoveCell { id, .. } => match cell_at(f, id.0 as int) {
            Some(c) => !(c.kind matches crate::cell::KindV::Const { val: crate::ty::ConstVal::F64(_), .. }),
            None => true,
        },
        _ => true,
    }
}

/// The first removal whose summary is not the cell as the pass saw it.
fn summary_problem(before: &Fabric, edits: &Vec<Edit>) -> (r: Option<String>)
    requires
        forall|k: int| 0 <= k < edits@.len() ==> removal_printable(*before, #[trigger] edits@[k]),
    ensures
        match r {
            Some(m) => summary_fault(*before, edits@, 0) == Some(m@),
            None => summary_fault(*before, edits@, 0) is None,
        },
{
    let mut k: usize = 0;
    while k < edits.len()
        invariant
            forall|k: int| 0 <= k < edits@.len() ==> removal_printable(*before, #[trigger] edits@[k]),
            k <= edits@.len(),
            summary_fault(*before, edits@, 0) == summary_fault(*before, edits@, k as int),
        decreases edits@.len() - k,
    {
        if let Edit::RemoveCell { id, summary, .. } = &edits[k] {
            let mut truth = id.to_text();
            match before.cell(*id) {
                None => {
                    push_str(&mut truth, " = <removed>");
                },
                Some(c) => {
                    let seen = seen_cell(c, *id, edits);
                    push_str(&mut truth, " = ");
                    assert(cell_at(*before, id.0 as int) == Some(c@));
                    assert(removal_printable(*before, edits@[k as int]));
                    proof {
                        lemma_retargeted_kind(c@, *id, edits@, edits@.len() as int);
                    }
                    push_kind(&mut truth, before, &seen);
                },
            }
            assert(truth@ == seen_text(*before, edits@, *id));
            if !crate::chars::str_eq(summary.as_str(), truth.as_str()) {
                let mut m = id_msg("lying summary: ", *id, " recorded as ");
                let ds = debug_str(summary.as_str());
                push_str(&mut m, ds.as_str());
                push_str(&mut m, " but the cell was ");
                let dt = debug_str(truth.as_str());
                push_str(&mut m, dt.as_str());
                return Some(m);
            }
        }
        k = k + 1;
    }
    None
}

/// The number of present cells.
fn count_cells(f: &Fabric) -> (n: usize)
    ensures
        n == count_present(*f, f.slab@.len() as int),
{
    let mut n: usize = 0;
    let mut i: usize = 0;
    while i < f.slab.len()
        invariant
            i <= f.slab@.len(),
            n == count_present(*f, i as int),
            n <= i,
        decreases f.slab@.len() - i,
    {
        if f.slab[i].is_some() {
            n = n + 1;
        }
        i = i + 1;
    }
    n
}

/// Lifecycle coupling: every ledger edit of one tick must be coupled to
/// the lifecycle it claims. No id is removed or added twice; no retarget
/// is a no-op; a removed id was present before and is gone after; an
/// added id is fresh (at or beyond the old slab length) and present
/// after; a removal's summary is the removed cell as the pass saw it
/// (the fabric before plus this record's retargets); and the population
/// reconciles: after == before + additions - removals.
pub fn population_audit(before: &Fabric, after: &Fabric, rec: &DiffRecord) -> (r: Result<PopulationReport, String>)
    requires
        forall|k: int| 0 <= k < rec.edits@.len() ==> removal_printable(*before, #[trigger] rec.edits@[k]),
    ensures
        match (r, audit_verdict(*before, *after, rec.edits@)) {
            (Ok(p), Ok(v)) => p.before == v.0 && p.after == v.1 && p.added == v.2 && p.removed == v.3,
            (Err(m), Err(s)) => m@ == s,
            _ => false,
        },
{
    let edits = &rec.edits;
    let (mut rm, mut ad) = match scan_ledger(edits) {
        Ok(p) => p,
        Err(m) => return Err(m),
    };
    let ghost rm0 = rm@;
    let ghost ad0 = ad@;
    sort_ids(&mut rm);
    sort_ids(&mut ad);
    proof {
        assert forall|x: u32| #[trigger] rm@.contains(x) <==> removed_in(edits@, CellId(x)) by {
            assert(rm@.to_multiset().count(x) == rm0.to_multiset().count(x));
            vstd::seq_lib::to_multiset_contains(rm@, x);
            vstd::seq_lib::to_multiset_contains(rm0, x);
        }
        assert forall|x: u32| #[trigger] ad@.contains(x) <==> added_in(edits@, CellId(x)) by {
            assert(ad@.to_multiset().count(x) == ad0.to_multiset().count(x));
            vstd::seq_lib::to_multiset_contains(ad@, x);
            vstd::seq_lib::to_multiset_contains(ad0, x);
        }
        vstd::seq_lib::to_multiset_len(rm@);
        vstd::seq_lib::to_multiset_len(rm0);
        vstd::seq_lib::to_multiset_len(ad@);
        vstd::seq_lib::to_multiset_len(ad0);
    }
    if let Some(m) = removal_problem(before, after, edits, &rm) {
        proof {
            let i = choose|i: u32| #[trigger] first_bad_removal(*before, *after, edits@, i) && m@ == removal_fault(
                *before,
                *after,
                CellId(i),
            )->0;
            let c = choose|i: u32| first_bad_removal(*before, *after, edits@, i);
            lemma_first_bad_removal_unique(*before, *after, edits@, i, c);
        }
        return Err(m);
    }
    if let Some(m) = addition_problem(before, after, edits, &ad) {
        proof {
            let i = choose|i: u32| #[trigger] first_bad_addition(*before, *after, edits@, i) && m@ == addition_fault(
                *before,
                *after,
                CellId(i),
            )->0;
            let c = choose|i: u32| first_bad_addition(*before, *after, edits@, i);
            lemma_first_bad_addition_unique(*before, *after, edits@, i, c);
        }
        return Err(m);
    }
    if rm.len() > 0 {
        if let Some(m) = summary_problem(before, edits) {
            return Err(m);
        }
    }
    let before_n = count_cells(before);
    let after_n = count_cells(after);
    let nr = rm.len();
    let na = ad.len();
    if (after_n as u128) + (nr as u128) != (before_n as u128) + (na as u128) {
        let mut m = String::new();
        push_str(&mut m, "population does not reconcile: ");
        push_dec(&mut m, before_n as u64);
        push_str(&mut m, " + ");
        push_dec(&mut m, na as u64);
        push_str(&mut m, " adds - ");
        push_dec(&mut m, nr as u64);
        push_str(&mut m, " removes != ");
        push_dec(&mut m, after_n as u64);
        push_str(&mut m, " cells after");
        return Err(m);
    }
    Ok(PopulationReport { before: before_n, after: after_n, added: na, removed: nr })
}

} // verus!
