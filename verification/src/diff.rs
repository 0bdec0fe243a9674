//! History: every transform appends a diff record; nothing rewrites.
//!
//! Edits are machine-applicable: replay folds them over the original
//! fabric to reproduce every intermediate fabric. `RemoveCell` edits carry
//! a ledger entry, the conservation law's paper trail. Ticks recorded
//! with `push_tick` also land a hash-chained signature entry (the weft).

use vstd::prelude::*;
use crate::cell::Cell;
use crate::chars::push_str;
use crate::dec::{dec, push_dec};
use crate::fabric::Fabric;
use crate::id::{CellId, cell_id_text};
use crate::lex::{is_ws, is_ws_exec};
use crate::sign::{TickSig, chain_bytes, fabric_sig, fnv_fold};
use crate::text::{kind_text, no_float_consts, print_text, push_kind};
use crate::cell::KindV;
use crate::ty::ConstVal;
use vstd::utf8::encode_utf8;

verus! {

#[derive(Clone, PartialEq, Debug)]
pub enum Edit {
    /// Add a cell under an explicit fresh id at a position in its region.
    AddCell { id: CellId, index: usize, cell: Cell },
    /// Remove a cell. `ledger` says why the value was dropped; `summary`
    /// is the cell's rendered form.
    RemoveCell { id: CellId, ledger: String, summary: String },
    /// Rewire one use: operands[slot] of `cell` goes from `from` to `to`.
    Retarget { cell: CellId, slot: u32, from: CellId, to: CellId },
}

#[derive(Clone, PartialEq, Debug)]
pub struct DiffRecord {
    pub pass: &'static str,
    pub epoch: u64,
    pub edits: Vec<Edit>,
    /// Notes that are not machine-applicable edits, such as why a
    /// candidate transform was skipped.
    pub notes: Vec<String>,
}

impl DiffRecord {
    pub fn new(pass: &'static str) -> (r: DiffRecord)
        ensures
            r.pass == pass,
            r.epoch == 0,
            r.edits@.len() == 0,
            r.notes@.len() == 0,
    {
        DiffRecord { pass, epoch: 0, edits: Vec::new(), notes: Vec::new() }
    }

    pub fn is_empty(&self) -> (b: bool)
        ensures
            b == (self.edits@.len() == 0),
    {
        self.edits.len() == 0
    }
}

/// Append-only history. Epochs are assigned on push, in order.
#[derive(Clone, PartialEq, Debug)]
pub struct History {
    pub records: Vec<DiffRecord>,
    pub weft: Vec<TickSig>,
}

/// The signature `fabric_sig` computes.
pub open spec fn sig_of(f: Fabric) -> u64 {
    fnv_fold(encode_utf8(print_text(f)))
}

/// The chain value `TickSig::chain_step` computes.
pub open spec fn chain_of(prev: Option<u64>, epoch: u64, pass: Seq<char>, sig: u64) -> u64 {
    fnv_fold(chain_bytes(prev, epoch, encode_utf8(pass), sig))
}

/// The progress note of a tick with `n` edits.
pub open spec fn progress_note(n: nat) -> Seq<char> {
    if n > 0 {
        "advanced ("@ + dec(n) + " edits)"@
    } else {
        "fixed point \u{2014} no edits fired"@
    }
}

/// Every character of `s` is whitespace (so `s` trims to nothing).
pub open spec fn all_ws(s: Seq<char>) -> bool {
    forall|k: int| 0 <= k < s.len() ==> is_ws(#[trigger] s[k])
}

/// `p` occurs in `s`.
pub open spec fn has_sub(s: Seq<char>, p: Seq<char>) -> bool {
    exists|i: int| 0 <= i && i + p.len() <= s.len() && #[trigger] s.subrange(i, i + p.len()) == p
}

/// What is wrong with weft entry `t` at position `i`, if anything.
pub open spec fn weft_fault(t: TickSig, i: int) -> Option<Seq<char>> {
    if t.epoch != i {
        Some("progress law violated: weft["@ + dec(i as nat) + "] has epoch "@ + dec(t.epoch as nat))
    } else if all_ws(t.note@) {
        Some("progress law violated: tick "@ + dec(i as nat) + " has a blank note"@)
    } else if !t.advanced && !has_sub(t.note@, "fixed point"@) {
        Some("progress law violated: tick "@ + dec(i as nat) + " neither advanced nor declared fixed point"@)
    } else {
        None
    }
}

/// The first fault among the weft entries from `k` on.
pub open spec fn weft_scan(weft: Seq<TickSig>, k: int) -> Result<(), Seq<char>>
    decreases weft.len() - k,
{
    if k < 0 || k >= weft.len() {
        Ok(())
    } else {
        match weft_fault(weft[k], k) {
            Some(m) => Err(m),
            None => weft_scan(weft, k + 1),
        }
    }
}

/// The progress law: an empty weft is allowed (a history without signed
/// ticks); otherwise there is one entry per record and each is sound.
pub open spec fn weft_law(records: nat, weft: Seq<TickSig>) -> Result<(), Seq<char>> {
    if weft.len() == 0 {
        Ok(())
    } else if weft.len() != records {
        Err("progress law violated: weft covers "@ + dec(weft.len()) + "/"@ + dec(records)
            + " ticks \u{2014} partial recording is forbidden"@)
    } else {
        weft_scan(weft, 0)
    }
}

/// Each weft entry's chain value binds it to the entry before.
pub open spec fn chain_linked(weft: Seq<TickSig>) -> bool {
    forall|i: int| 0 <= i < weft.len() ==> (#[trigger] weft[i]).chain == chain_of(
        if i == 0 { None } else { Some(weft[i - 1].chain) },
        weft[i].epoch,
        weft[i].pass@,
        weft[i].sig,
    )
}

/// `weft_scan` finds nothing from `k` on exactly when every entry from
/// `k` on is sound.
pub proof fn lemma_weft_scan(weft: Seq<TickSig>, k: int)
    requires
        0 <= k <= weft.len(),
    ensures
        weft_scan(weft, k) is Ok <==> forall|i: int| k <= i < weft.len() ==> #[trigger] weft_fault(weft[i], i) is None,
    decreases weft.len() - k,
{
    if k < weft.len() {
        lemma_weft_scan(weft, k + 1);
    }
}

/// Whether every character of `s` is whitespace.
pub(crate) fn blank(s: &str) -> (b: bool)
    ensures
        b == all_ws(s@),
{
    let n = s.unicode_len();
    let mut i: usize = 0;
    while i < n
        invariant
            n == s@.len(),
            i <= n,
            forall|k: int| 0 <= k < i ==> is_ws(#[trigger] s@[k]),
        decreases n - i,
    {
        if !is_ws_exec(s.get_char(i)) {
            return false;
        }
        i = i + 1;
    }
    true
}

/// Whether `p` occurs in `s`.
pub fn contains_str(s: &str, p: &str) -> (b: bool)
    ensures
        b == has_sub(s@, p@),
{
    let n = s.unicode_len();
    let m = p.unicode_len();
    if m > n {
        return false;
    }
    let mut i: usize = 0;
    while i <= n - m
        invariant
            n == s@.len(),
            m == p@.len(),
            m <= n,
            i <= n - m + 1,
            forall|a: int| 0 <= a < i ==> #[trigger] s@.subrange(a, a + m) != p@,
        decreases n - i,
    {
        let mut j: usize = 0;
        let mut same = true;
        assert(s@.subrange(i as int, i as int) =~= p@.take(0));
        while j < m
            invariant
                n == s@.len(),
                m == p@.len(),
                i + m <= n,
                j <= m,
                same == (s@.subrange(i as int, i + j) == p@.take(j as int)),
            decreases m - j,
        {
            if same && s.get_char(i + j) != p.get_char(j) {
                proof {
                    assert(s@.subrange(i as int, i + m)[j as int] == s@[i + j]);
                }
                same = false;
            }
            proof {
                if same {
                    assert(s@.subrange(i as int, i + j + 1) =~= s@.subrange(i as int, i + j).push(s@[i + j]));
                    assert(p@.take(j + 1) =~= p@.take(j as int).push(p@[j as int]));
                } else {
                    assert(s@.subrange(i as int, i + j + 1).take(j as int) =~= s@.subrange(i as int, i + j));
                    assert(p@.take(j + 1).take(j as int) =~= p@.take(j as int));
                    if s@.subrange(i as int, i + j + 1) == p@.take(j + 1) {
                        assert(s@.subrange(i as int, i + j) == p@.take(j as int));
                    }
                }
            }
            j = j + 1;
        }
        assert(p@.take(m as int) =~= p@);
        if same {
            return true;
        }
        i = i + 1;
    }
    proof {
        assert forall|a: int| 0 <= a && a + p@.len() <= s@.len() implies #[trigger] s@.subrange(a, a + p@.len()) != p@ by {
            assert(a < i);
        }
    }
    false
}

/// Append the progress note of a tick with `n` edits.
fn push_progress(out: &mut String, n: usize)
    ensures
        final(out)@ == old(out)@ + progress_note(n as nat),
{
    if n > 0 {
        push_str(out, "advanced (");
        push_dec(out, n as u64);
        push_str(out, " edits)");
    } else {
        push_str(out, "fixed point \u{2014} no edits fired");
    }
}

/// One hex digit, lower case.
pub open spec fn hex_digit(d: u64) -> char {
    if d < 10 {
        (d + 48) as char
    } else {
        (d + 87) as char
    }
}

/// `x` as 16 zero-padded lower-case hex digits.
pub open spec fn hex16(x: u64) -> Seq<char> {
    Seq::new(16, |k: int| hex_digit((x >> ((60 - 4 * k) as u64)) & 15u64))
}

/// Append `x` as 16 zero-padded lower-case hex digits.
fn push_hex16(out: &mut String, x: u64)
    ensures
        final(out)@ == old(out)@ + hex16(x),
{
    let mut k: u64 = 0;
    while k < 16
        invariant
            k <= 16,
            out@ == old(out)@ + hex16(x).take(k as int),
        decreases 16 - k,
    {
        let sh: u64 = 60 - 4 * k;
        let d: u64 = (x >> sh) & 15u64;
        assert(d < 16) by (bit_vector)
            requires
                d == (x >> sh) & 15u64,
        ;
        let c: char = if d < 10 {
            (48u8 + d as u8) as char
        } else {
            (87u8 + d as u8) as char
        };
        assert(c == hex_digit(d));
        out.push(c);
        proof {
            assert(hex16(x)[k as int] == hex_digit((x >> ((60 - 4 * k) as u64)) & 15u64));
            assert(((60 - 4 * k) as u64) == sh);
        }
        k = k + 1;
        assert(out@ =~= old(out)@ + hex16(x).take(k as int));
    }
    assert(hex16(x).take(16) =~= hex16(x));
}

/// The chain value before entry `i`.
pub open spec fn prev_chain(weft: Seq<TickSig>, i: int) -> Option<u64> {
    if i == 0 {
        None
    } else {
        Some(weft[i - 1].chain)
    }
}

/// What is wrong with weft entry `i` against the stage after it.
pub open spec fn chain_fault(weft: Seq<TickSig>, stages: Seq<Fabric>, i: int) -> Option<Seq<char>> {
    let t = weft[i];
    let actual = sig_of(stages[i + 1]);
    if actual != t.sig {
        Some("chain verification: tick "@ + dec(i as nat) + " recorded sig "@ + hex16(t.sig) + " but the stage hashes "@
            + hex16(actual) + " \u{2014} history does not match the fabric"@)
    } else if chain_of(prev_chain(weft, i), t.epoch, t.pass@, t.sig) != t.chain {
        Some("chain verification: tick "@ + dec(i as nat) + " does not re-link"@)
    } else {
        None
    }
}

/// The first chain fault from entry `k` on.
pub open spec fn chain_scan(weft: Seq<TickSig>, stages: Seq<Fabric>, k: int) -> Result<(), Seq<char>>
    decreases weft.len() - k,
{
    if k < 0 || k >= weft.len() {
        Ok(())
    } else {
        match chain_fault(weft, stages, k) {
            Some(m) => Err(m),
            None => chain_scan(weft, stages, k + 1),
        }
    }
}

/// Chain verification against replayed stages: `stages[0]` is the
/// fabric before the first tick, `stages[i + 1]` the fabric after tick
/// `i`. An empty weft has nothing to check.
pub open spec fn chain_law(weft: Seq<TickSig>, stages: Seq<Fabric>) -> Result<(), Seq<char>> {
    if weft.len() == 0 {
        Ok(())
    } else if stages.len() != weft.len() + 1 {
        Err("chain verification: "@ + dec(stages.len()) + " stages for "@ + dec(weft.len()) + " weft entries"@)
    } else {
        chain_scan(weft, stages, 0)
    }
}

/// `chain_scan` finds nothing from `k` on exactly when no entry from `k`
/// on has a fault.
pub proof fn lemma_chain_scan(weft: Seq<TickSig>, stages: Seq<Fabric>, k: int)
    requires
        0 <= k <= weft.len(),
    ensures
        chain_scan(weft, stages, k) is Ok <==> forall|i: int| k <= i < weft.len() ==> #[trigger] chain_fault(
            weft,
            stages,
            i,
        ) is None,
    decreases weft.len() - k,
{
    if k < weft.len() {
        lemma_chain_scan(weft, stages, k + 1);
    }
}

/// A weft whose entries are chain-linked and whose signatures are those
/// of the stages passes chain verification against those stages.
pub proof fn lemma_recorded_weft_verifies(weft: Seq<TickSig>, stages: Seq<Fabric>)
    requires
        chain_linked(weft),
        stages.len() == weft.len() + 1,
        forall|i: int| 0 <= i < weft.len() ==> (#[trigger] weft[i]).sig == sig_of(stages[i + 1]),
    ensures
        chain_law(weft, stages) is Ok,
{
    assert forall|i: int| 0 <= i < weft.len() implies #[trigger] chain_fault(weft, stages, i) is None by {
        assert(weft[i].chain == chain_of(prev_chain(weft, i), weft[i].epoch, weft[i].pass@, weft[i].sig));
    }
    lemma_chain_scan(weft, stages, 0);
}

/// The message of one edit about cell `id`, if the edit mentions it.
pub open spec fn mention(e: Edit, id: CellId) -> Option<Seq<char>> {
    match e {
        Edit::AddCell { id: i, .. } => if i == id {
            Some("added"@)
        } else {
            None
        },
        Edit::RemoveCell { id: i, ledger, .. } => if i == id {
            Some("removed ("@ + ledger@ + ")"@)
        } else {
            None
        },
        Edit::Retarget { cell, slot, from, to } => if cell == id {
            Some("retargeted use ."@ + dec(slot as nat) + " "@ + cell_id_text(from) + " -> "@ + cell_id_text(to))
        } else {
            None
        },
    }
}

/// The mentions of `id` in the first `n` edits of a record.
pub open spec fn record_mentions(rec: DiffRecord, n: int, id: CellId) -> Seq<(u64, &'static str, Seq<char>)>
    decreases n,
{
    if n <= 0 {
        Seq::empty()
    } else {
        record_mentions(rec, n - 1, id) + match mention(rec.edits@[n - 1], id) {
            Some(m) => seq![(rec.epoch, rec.pass, m)],
            None => Seq::empty(),
        }
    }
}

/// The mentions of `id` in the first `n` records.
pub open spec fn history_mentions(records: Seq<DiffRecord>, n: int, id: CellId) -> Seq<(u64, &'static str, Seq<char>)>
    decreases n,
{
    if n <= 0 {
        Seq::empty()
    } else {
        history_mentions(records, n - 1, id) + record_mentions(records[n - 1], records[n - 1].edits@.len() as int, id)
    }
}

/// The view of a mention list.
pub open spec fn mentions_view(v: Seq<(u64, &'static str, String)>) -> Seq<(u64, &'static str, Seq<char>)> {
    v.map_values(|t: (u64, &'static str, String)| (t.0, t.1, t.2@))
}

/// The name of region `r` in a rendered history line.
pub open spec fn history_region_name(f: Fabric, r: crate::id::RegionId) -> Seq<char> {
    if (r.0 as int) < f.regions@.len() {
        f.regions@[r.0 as int].name@
    } else {
        "<bad>"@
    }
}

/// One rendered edit line.
pub open spec fn edit_line(f: Fabric, e: Edit) -> Seq<char> {
    match e {
        Edit::AddCell { id, index, cell } => "  + "@ + cell_id_text(id) + " @ "@ + history_region_name(f, cell.region)
            + "["@ + dec(index as nat) + "] :: "@ + cell_id_text(id) + " = "@ + kind_text(f, cell@) + "\n"@,
        Edit::RemoveCell { id, ledger, summary } => "  - "@ + cell_id_text(id) + " ("@ + ledger@ + ") :: "@
            + summary@ + "\n"@,
        Edit::Retarget { cell, slot, from, to } => "  ~ "@ + cell_id_text(cell) + "."@ + dec(slot as nat) + ": "@
            + cell_id_text(from) + " -> "@ + cell_id_text(to) + "\n"@,
    }
}

/// The first `n` notes, rendered.
pub open spec fn notes_text(notes: Seq<String>, n: int) -> Seq<char>
    decreases n,
{
    if n <= 0 {
        Seq::empty()
    } else {
        notes_text(notes, n - 1) + "  # note: "@ + notes[n - 1]@ + "\n"@
    }
}

/// The first `n` edits, rendered.
pub open spec fn edits_text(f: Fabric, edits: Seq<Edit>, n: int) -> Seq<char>
    decreases n,
{
    if n <= 0 {
        Seq::empty()
    } else {
        edits_text(f, edits, n - 1) + edit_line(f, edits[n - 1])
    }
}

/// A rendered record: its header, its notes, its edits.
pub open spec fn record_text(f: Fabric, rec: DiffRecord) -> Seq<char> {
    "epoch "@ + dec(rec.epoch as nat) + " pass "@ + rec.pass@ + "\n"@ + notes_text(rec.notes@, rec.notes@.len() as int)
        + edits_text(f, rec.edits@, rec.edits@.len() as int)
}

/// The first `n` records, rendered.
pub open spec fn history_text(f: Fabric, records: Seq<DiffRecord>, n: int) -> Seq<char>
    decreases n,
{
    if n <= 0 {
        Seq::empty()
    } else {
        history_text(f, records, n - 1) + record_text(f, records[n - 1])
    }
}

/// No cell carried by an addition holds a float constant.
pub open spec fn adds_renderable(edits: Seq<Edit>) -> bool {
    forall|k: int| 0 <= k < edits.len() ==> (#[trigger] edits[k] matches Edit::AddCell { cell, .. } ==> !(
    cell.kind@ matches KindV::Const { val: ConstVal::F64(_), .. }))
}

/// Append one rendered edit line.
#[verifier::spinoff_prover]
fn push_edit_line(out: &mut String, f: &Fabric, e: &Edit)
    requires
        e matches Edit::AddCell { cell, .. } ==> !(cell.kind@ matches KindV::Const { val: ConstVal::F64(_), .. }),
    ensures
        final(out)@ == old(out)@ + edit_line(*f, *e),
{
    let ghost before = out@;
    match e {
        Edit::AddCell { id, index, cell } => {
            push_str(out, "  + ");
            let t = id.to_text();
            push_str(out, t.as_str());
            push_str(out, " @ ");
            match f.region(cell.region) {
                Some(r) => push_str(out, r.name.as_str()),
                None => push_str(out, "<bad>"),
            }
            push_str(out, "[");
            push_dec(out, *index as u64);
            push_str(out, "] :: ");
            push_str(out, t.as_str());
            push_str(out, " = ");
            push_kind(out, f, cell);
            push_str(out, "\n");
        },
        Edit::RemoveCell { id, ledger, summary } => {
            push_str(out, "  - ");
            let t = id.to_text();
            push_str(out, t.as_str());
            push_str(out, " (");
            push_str(out, ledger.as_str());
            push_str(out, ") :: ");
            push_str(out, summary.as_str());
            push_str(out, "\n");
        },
        Edit::Retarget { cell, slot, from, to } => {
            push_str(out, "  ~ ");
            let t = cell.to_text();
            push_str(out, t.as_str());
            push_str(out, ".");
            push_dec(out, *slot as u64);
            push_str(out, ": ");
            let ft = from.to_text();
            push_str(out, ft.as_str());
            push_str(out, " -> ");
            let tt = to.to_text();
            push_str(out, tt.as_str());
            push_str(out, "\n");
        },
    }
    assert(out@ =~= before + edit_line(*f, *e));
}

impl DiffRecord {
    /// The record as text: a header line, its notes, and one line per
    /// edit. A stored cell is rendered from the edit itself: it may be
    /// gone from the fabric the record is rendered against.
    pub fn render(&self, f: &Fabric) -> (s: String)
        requires
            adds_renderable(self.edits@),
        ensures
            s@ == record_text(*f, *self),
    {
        let mut out = String::new();
        push_str(&mut out, "epoch ");
        push_dec(&mut out, self.epoch);
        push_str(&mut out, " pass ");
        push_str(&mut out, self.pass);
        push_str(&mut out, "\n");
        let ghost head = out@;
        let mut i: usize = 0;
        while i < self.notes.len()
            invariant
                i <= self.notes@.len(),
                out@ == head + notes_text(self.notes@, i as int),
            decreases self.notes@.len() - i,
        {
            push_str(&mut out, "  # note: ");
            push_str(&mut out, self.notes[i].as_str());
            push_str(&mut out, "\n");
            i = i + 1;
        }
        let ghost mid = out@;
        let mut k: usize = 0;
        while k < self.edits.len()
            invariant
                adds_renderable(self.edits@),
                k <= self.edits@.len(),
                out@ == mid + edits_text(*f, self.edits@, k as int),
            decreases self.edits@.len() - k,
        {
            let ghost before = out@;
            push_edit_line(&mut out, f, &self.edits[k]);
            assert(out@ =~= before + edit_line(*f, self.edits@[k as int]));
            k = k + 1;
        }
        out
    }
}

impl History {
    pub fn new() -> (h: History)
        ensures
            h.records@.len() == 0,
            h.weft@.len() == 0,
    {
        History { records: Vec::new(), weft: Vec::new() }
    }

    /// Append a record without a weft entry; its epoch is its position.
    pub fn push(&mut self, rec: DiffRecord) -> (epoch: u64)
        requires
            old(self).records@.len() < u64::MAX,
        ensures
            epoch == old(self).records@.len(),
            final(self).records@ == old(self).records@.push(DiffRecord { epoch, ..rec }),
            final(self).weft == old(self).weft,
    {
        let mut rec = rec;
        rec.epoch = self.records.len() as u64;
        let epoch = rec.epoch;
        self.records.push(rec);
        epoch
    }

    /// Append a record and its weft entry: the signature of
    /// `fabric_after`, chained to the previous entry, with a progress
    /// note derived from the number of edits.
    pub fn push_tick(&mut self, rec: DiffRecord, fabric_after: &Fabric) -> (epoch: u64)
        requires
            old(self).records@.len() < u64::MAX,
            no_float_consts(*fabric_after),
        ensures
            epoch == old(self).records@.len(),
            final(self).records@ == old(self).records@.push(DiffRecord { epoch, ..rec }),
            final(self).weft@.len() == old(self).weft@.len() + 1,
            final(self).weft@.drop_last() == old(self).weft@,
            ({
                let t = final(self).weft@.last();
                let prev = if old(self).weft@.len() == 0 {
                    None
                } else {
                    Some(old(self).weft@.last().chain)
                };
                &&& t.epoch == epoch
                &&& t.pass == rec.pass
                &&& t.sig == sig_of(*fabric_after)
                &&& t.chain == chain_of(prev, epoch, rec.pass@, t.sig)
                &&& t.advanced == (rec.edits@.len() > 0)
                &&& t.note@ == progress_note(rec.edits@.len())
            }),
            old(self).weft@.len() == old(self).records@.len() && weft_law(
                old(self).records@.len(),
                old(self).weft@,
            ) is Ok ==> weft_law(final(self).records@.len(), final(self).weft@) is Ok,
            chain_linked(old(self).weft@) ==> chain_linked(final(self).weft@),
    {
        let mut rec = rec;
        rec.epoch = self.records.len() as u64;
        let epoch = rec.epoch;
        let sig = fabric_sig(fabric_after);
        let prev = if self.weft.len() == 0 {
            None
        } else {
            Some(self.weft[self.weft.len() - 1].chain)
        };
        let chain = TickSig::chain_step(prev, epoch, rec.pass, sig);
        let advanced = rec.edits.len() > 0;
        let mut note = String::new();
        push_progress(&mut note, rec.edits.len());
        let ghost old_weft = self.weft@;
        self.weft.push(TickSig { epoch, pass: rec.pass, sig, chain, advanced, note });
        self.records.push(rec);
        proof {
            assert(self.weft@.drop_last() =~= old_weft);
            let w = self.weft@;
            let t = w.last();
            if old_weft.len() == old(self).records@.len() && weft_law(old(self).records@.len(), old_weft) is Ok {
                lemma_progress_note_sound(rec.edits@.len(), advanced);
                assert(weft_fault(t, w.len() - 1) is None);
                if old_weft.len() > 0 {
                    lemma_weft_scan(old_weft, 0);
                }
                assert forall|i: int| 0 <= i < w.len() implies #[trigger] weft_fault(w[i], i) is None by {
                    if i < old_weft.len() {
                        assert(w[i] == old_weft[i]);
                    }
                }
                lemma_weft_scan(w, 0);
            }
            if chain_linked(old_weft) {
                assert forall|i: int| 0 <= i < w.len() implies (#[trigger] w[i]).chain == chain_of(
                    if i == 0 { None } else { Some(w[i - 1].chain) },
                    w[i].epoch,
                    w[i].pass@,
                    w[i].sig,
                ) by {
                    if i < old_weft.len() {
                        assert(w[i] == old_weft[i]);
                        if i > 0 {
                            assert(w[i - 1] == old_weft[i - 1]);
                        }
                    } else if i > 0 {
                        assert(w[i - 1] == old_weft[i - 1]);
                    }
                }
            }
        }
        epoch
    }

    /// The progress law, made checkable: a history that records any weft
    /// entries records one per tick, in step with the records; each entry
    /// carries a non-blank note, and a tick that did not advance declares
    /// a fixed point.
    pub fn check_weft(&self) -> (r: Result<(), String>)
        ensures
            match (r, weft_law(self.records@.len(), self.weft@)) {
                (Ok(_), Ok(_)) => true,
                (Err(m), Err(s)) => m@ == s,
                _ => false,
            },
    {
        if self.weft.len() == 0 {
            return Ok(());
        }
        if self.weft.len() != self.records.len() {
            let mut m = String::new();
            push_str(&mut m, "progress law violated: weft covers ");
            push_dec(&mut m, self.weft.len() as u64);
            push_str(&mut m, "/");
            push_dec(&mut m, self.records.len() as u64);
            push_str(&mut m, " ticks \u{2014} partial recording is forbidden");
            return Err(m);
        }
        let mut i: usize = 0;
        while i < self.weft.len()
            invariant
                i <= self.weft@.len(),
                weft_law(self.records@.len(), self.weft@) == weft_scan(self.weft@, 0),
                weft_scan(self.weft@, 0) == weft_scan(self.weft@, i as int),
            decreases self.weft@.len() - i,
        {
            let t = &self.weft[i];
            if t.epoch != i as u64 {
                let mut m = String::new();
                push_str(&mut m, "progress law violated: weft[");
                push_dec(&mut m, i as u64);
                push_str(&mut m, "] has epoch ");
                push_dec(&mut m, t.epoch);
                return Err(m);
            }
            if blank(t.note.as_str()) {
                let mut m = String::new();
                push_str(&mut m, "progress law violated: tick ");
                push_dec(&mut m, i as u64);
                push_str(&mut m, " has a blank note");
                return Err(m);
            }
            if !t.advanced && !contains_str(t.note.as_str(), "fixed point") {
                let mut m = String::new();
                push_str(&mut m, "progress law violated: tick ");
                push_dec(&mut m, i as u64);
                push_str(&mut m, " neither advanced nor declared fixed point");
                return Err(m);
            }
            i = i + 1;
        }
        Ok(())
    }

    /// Chain verification against replayed stages: every recorded
    /// signature must be that of the actual stage, and the chain must
    /// re-link. A tampered stage fails naming its tick.
    pub fn verify_chain(&self, stages: &[Fabric]) -> (r: Result<(), String>)
        requires
            forall|i: int| 0 <= i < stages@.len() ==> no_float_consts(#[trigger] stages@[i]),
        ensures
            match (r, chain_law(self.weft@, stages@)) {
                (Ok(_), Ok(_)) => true,
                (Err(m), Err(s)) => m@ == s,
                _ => false,
            },
    {
        if self.weft.len() == 0 {
            return Ok(());
        }
        if stages.len() == 0 || stages.len() - 1 != self.weft.len() {
            let mut m = String::new();
            push_str(&mut m, "chain verification: ");
            push_dec(&mut m, stages.len() as u64);
            push_str(&mut m, " stages for ");
            push_dec(&mut m, self.weft.len() as u64);
            push_str(&mut m, " weft entries");
            return Err(m);
        }
        let mut prev: Option<u64> = None;
        let mut i: usize = 0;
        while i < self.weft.len()
            invariant
                stages@.len() == self.weft@.len() + 1,
                forall|k: int| 0 <= k < stages@.len() ==> no_float_consts(#[trigger] stages@[k]),
                i <= self.weft@.len(),
                prev == prev_chain(self.weft@, i as int),
                chain_law(self.weft@, stages@) == chain_scan(self.weft@, stages@, 0),
                chain_scan(self.weft@, stages@, 0) == chain_scan(self.weft@, stages@, i as int),
            decreases self.weft@.len() - i,
        {
            let t = &self.weft[i];
            let actual = fabric_sig(&stages[i + 1]);
            if actual != t.sig {
                let mut m = String::new();
                push_str(&mut m, "chain verification: tick ");
                push_dec(&mut m, i as u64);
                push_str(&mut m, " recorded sig ");
                push_hex16(&mut m, t.sig);
                push_str(&mut m, " but the stage hashes ");
                push_hex16(&mut m, actual);
                push_str(&mut m, " \u{2014} history does not match the fabric");
                return Err(m);
            }
            let want = TickSig::chain_step(prev, t.epoch, t.pass, t.sig);
            if want != t.chain {
                let mut m = String::new();
                push_str(&mut m, "chain verification: tick ");
                push_dec(&mut m, i as u64);
                push_str(&mut m, " does not re-link");
                return Err(m);
            }
            prev = Some(t.chain);
            i = i + 1;
        }
        Ok(())
    }

    /// Every edit that mentions a cell, in epoch order: the cell's
    /// transform provenance (dropped cells included).
    pub fn mentions_of(&self, id: CellId) -> (out: Vec<(u64, &'static str, String)>)
        ensures
            mentions_view(out@) == history_mentions(self.records@, self.records@.len() as int, id),
    {
        let mut out: Vec<(u64, &'static str, String)> = Vec::new();
        let mut r: usize = 0;
        while r < self.records.len()
            invariant
                r <= self.records@.len(),
                mentions_view(out@) == history_mentions(self.records@, r as int, id),
            decreases self.records@.len() - r,
        {
            let rec = &self.records[r];
            let ghost base = mentions_view(out@);
            let mut k: usize = 0;
            while k < rec.edits.len()
                invariant
                    rec == self.records@[r as int],
                    k <= rec.edits@.len(),
                    mentions_view(out@) == base + record_mentions(*rec, k as int, id),
                decreases rec.edits@.len() - k,
            {
                let ghost before = out@;
                let m: Option<String> = match &rec.edits[k] {
                    Edit::AddCell { id: i, .. } => {
                        if *i == id {
                            let mut s = String::new();
                            push_str(&mut s, "added");
                            Some(s)
                        } else {
                            None
                        }
                    },
                    Edit::RemoveCell { id: i, ledger, .. } => {
                        if *i == id {
                            let mut s = String::new();
                            push_str(&mut s, "removed (");
                            push_str(&mut s, ledger.as_str());
                            push_str(&mut s, ")");
                            Some(s)
                        } else {
                            None
                        }
                    },
                    Edit::Retarget { cell, slot, from, to } => {
                        if *cell == id {
                            let mut s = String::new();
                            push_str(&mut s, "retargeted use .");
                            push_dec(&mut s, *slot as u64);
                            push_str(&mut s, " ");
                            let ft = from.to_text();
                            push_str(&mut s, ft.as_str());
                            push_str(&mut s, " -> ");
                            let tt = to.to_text();
                            push_str(&mut s, tt.as_str());
                            Some(s)
                        } else {
                            None
                        }
                    },
                };
                assert(m matches Some(s) ==> mention(rec.edits@[k as int], id) == Some(s@));
                assert(m is None ==> mention(rec.edits@[k as int], id) is None);
                match m {
                    Some(s) => {
                        out.push((rec.epoch, rec.pass, s));
                        assert(mentions_view(out@) =~= mentions_view(before).push((rec.epoch, rec.pass, s@)));
                    },
                    None => {},
                }
                k = k + 1;
            }
            r = r + 1;
        }
        out
    }

    /// Every record rendered, in order.
    pub fn render(&self, f: &Fabric) -> (s: String)
        requires
            forall|r: int| 0 <= r < self.records@.len() ==> adds_renderable(#[trigger] self.records@[r].edits@),
        ensures
            s@ == history_text(*f, self.records@, self.records@.len() as int),
    {
        let mut out = String::new();
        let mut r: usize = 0;
        while r < self.records.len()
            invariant
                forall|q: int| 0 <= q < self.records@.len() ==> adds_renderable(#[trigger] self.records@[q].edits@),
                r <= self.records@.len(),
                out@ == history_text(*f, self.records@, r as int),
            decreases self.records@.len() - r,
        {
            let t = self.records[r].render(f);
            push_str(&mut out, t.as_str());
            r = r + 1;
        }
        out
    }

    /// The size of the rendered history in UTF-8 bytes.
    pub fn bytes(&self, f: &Fabric) -> (n: usize)
        requires
            forall|r: int| 0 <= r < self.records@.len() ==> adds_renderable(#[trigger] self.records@[r].edits@),
        ensures
            n == encode_utf8(history_text(*f, self.records@, self.records@.len() as int)).len(),
    {
        let t = self.render(f);
        t.as_str().as_bytes().len()
    }

    pub fn len(&self) -> (n: usize)
        ensures
            n == self.records@.len(),
    {
        self.records.len()
    }

    pub fn is_empty(&self) -> (b: bool)
        ensures
            b == (self.records@.len() == 0),
    {
        self.records.len() == 0
    }
}

/// A progress note is never blank, and a note for a tick that did not
/// advance declares a fixed point.
proof fn lemma_progress_note_sound(n: nat, advanced: bool)
    requires
        advanced == (n > 0),
    ensures
        !all_ws(progress_note(n)),
        !advanced ==> has_sub(progress_note(n), "fixed point"@),
{
    reveal_strlit("advanced (");
    reveal_strlit(" edits)");
    reveal_strlit("fixed point \u{2014} no edits fired");
    reveal_strlit("fixed point");
    let s = progress_note(n);
    assert(!is_ws(s[0]));
    if !advanced {
        let z: int = 0;
        assert(s.subrange(z, z + "fixed point"@.len()) =~= "fixed point"@);
    }
}

} // verus!
