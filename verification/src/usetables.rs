//! Maintained use/pred/succ tables.
//!
//! - `users[def]`: every use edge (user, slot) whose operand slot holds
//!   `def`, ordered user-ascending then slot-ascending.
//! - `succs[r]`: successor regions of `r` (the targets of its last cell
//!   when that cell is a terminator), deduplicated in [then, else] order.
//! - `preds[s]`: predecessor regions of `s`, deduplicated, ascending.
//!
//! The tables are maintained incrementally by the sanctioned fabric
//! edits and must always equal what `UseTables::derive` computes from the
//! fabric's content.

use vstd::prelude::*;
use crate::cell::{CellKind, KindV};
use crate::id::{CellId, RegionId};

verus! {

#[derive(Clone, Debug, PartialEq)]
pub struct UseTables {
    /// users[def] = [(user, slot)] in user-asc, slot-asc order.
    pub users: Vec<Vec<(CellId, u32)>>,
    /// succs[r] = successor regions of r, dedup, [then, else] order.
    pub succs: Vec<Vec<RegionId>>,
    /// preds[s] = predecessor regions of s, dedup, ascending.
    pub preds: Vec<Vec<RegionId>>,
}

/// Growth cap for forward region targets: rows are grown to fit targets
/// below this index only.
pub const ROW_GROW_LIMIT: usize = 1048576;

/// The ordering key of a use edge: user first, then slot.
pub open spec fn use_key(u: (CellId, u32)) -> int {
    u.0.0 as int * 0x1_0000_0000 + u.1 as int
}

/// Strictly ascending by (user, slot).
pub open spec fn uses_sorted(s: Seq<(CellId, u32)>) -> bool {
    forall|i: int, j: int| 0 <= i < j < s.len() ==> use_key(s[i]) < use_key(s[j])
}

/// Strictly ascending by region index.
pub open spec fn regions_sorted(s: Seq<RegionId>) -> bool {
    forall|i: int, j: int| 0 <= i < j < s.len() ==> s[i].0 < s[j].0
}

/// Number of leading entries whose key is below `k` (where a sorted row
/// places a new entry with key `k`).
pub open spec fn uses_below(s: Seq<(CellId, u32)>, k: int) -> nat
    decreases s.len(),
{
    if s.len() == 0 {
        0
    } else if use_key(s[0]) < k {
        1 + uses_below(s.drop_first(), k)
    } else {
        0
    }
}

pub open spec fn regions_below(s: Seq<RegionId>, r: RegionId) -> nat
    decreases s.len(),
{
    if s.len() == 0 {
        0
    } else if s[0].0 < r.0 {
        1 + regions_below(s.drop_first(), r)
    } else {
        0
    }
}

/// Successor targets of a cell kind: the single definition of the
/// region-successor relation.
pub open spec fn kind_succs_spec(kind: KindV) -> Seq<RegionId> {
    match kind {
        KindV::Branch { then_r, else_r } => if then_r == else_r {
            seq![then_r]
        } else {
            seq![then_r, else_r]
        },
        KindV::Jump { target } => seq![target],
        _ => Seq::empty(),
    }
}

pub fn kind_succs(kind: &CellKind) -> (v: Vec<RegionId>)
    ensures
        no_dup_regions(v@),
        v@ == kind_succs_spec(kind@),
{
    match kind {
        CellKind::Branch { then_r, else_r } => {
            let mut out: Vec<RegionId> = Vec::new();
            out.push(*then_r);
            if then_r.0 != else_r.0 {
                out.push(*else_r);
            }
            proof {
                if then_r.0 == else_r.0 {
                    assert(*then_r == *else_r);
                }
                assert(out@ =~= kind_succs_spec(kind@));
            }
            out
        },
        CellKind::Jump { target } => {
            let mut out: Vec<RegionId> = Vec::new();
            out.push(*target);
            assert(out@ =~= kind_succs_spec(kind@));
            out
        },
        _ => Vec::new(),
    }
}

/// A row of `rows` at index `i`, or the empty row past the end.
pub open spec fn row_at<T>(rows: Seq<Vec<T>>, i: int) -> Seq<T> {
    if 0 <= i < rows.len() {
        rows[i]@
    } else {
        Seq::empty()
    }
}

pub open spec fn no_dup_regions(s: Seq<RegionId>) -> bool {
    forall|i: int, j: int| 0 <= i < j < s.len() ==> s[i] != s[j]
}


fn use_lt(a: (CellId, u32), b: (CellId, u32)) -> (r: bool)
    ensures
        r == (use_key(a) < use_key(b)),
{
    a.0.0 < b.0.0 || (a.0.0 == b.0.0 && a.1 < b.1)
}

fn use_eq(a: (CellId, u32), b: (CellId, u32)) -> (r: bool)
    ensures
        r == (a == b),
{
    a.0.0 == b.0.0 && a.1 == b.1
}

/// Where a sorted row places an entry with key `k`: the count of entries
/// below it.
fn lower_bound_uses(row: &Vec<(CellId, u32)>, key: (CellId, u32)) -> (pos: usize)
    ensures
        pos == uses_below(row@, use_key(key)),
{
    let mut pos: usize = 0;
    assert(row@.skip(0) =~= row@);
    while pos < row.len() && use_lt(row[pos], key)
        invariant
            pos <= row@.len(),
            forall|k: int| 0 <= k < pos ==> use_key(#[trigger] row@[k]) < use_key(key),
            uses_below(row@, use_key(key)) == pos + uses_below(row@.skip(pos as int), use_key(key)),
        decreases row@.len() - pos,
    {
        proof {
            let t = row@.skip(pos as int);
            assert(t.drop_first() =~= row@.skip(pos + 1));
        }
        pos = pos + 1;
    }
    proof {
        let t = row@.skip(pos as int);
        if pos < row@.len() {
            assert(t[0] == row@[pos as int]);
        } else {
            assert(t.len() == 0);
        }
    }
    pos
}

fn lower_bound_regions(row: &Vec<RegionId>, r: RegionId) -> (pos: usize)
    ensures
        pos == regions_below(row@, r),
{
    let mut pos: usize = 0;
    assert(row@.skip(0) =~= row@);
    while pos < row.len() && row[pos].0 < r.0
        invariant
            pos <= row@.len(),
            regions_below(row@, r) == pos + regions_below(row@.skip(pos as int), r),
        decreases row@.len() - pos,
    {
        proof {
            let t = row@.skip(pos as int);
            assert(t.drop_first() =~= row@.skip(pos + 1));
        }
        pos = pos + 1;
    }
    proof {
        let t = row@.skip(pos as int);
        if pos < row@.len() {
            assert(t[0] == row@[pos as int]);
        } else {
            assert(t.len() == 0);
        }
    }
    pos
}

/// A sorted row with the entry `k` inserted where it belongs.
pub open spec fn uses_insert(s: Seq<(CellId, u32)>, k: (CellId, u32)) -> Seq<(CellId, u32)> {
    s.insert(uses_below(s, use_key(k)) as int, k)
}

/// A sorted row with the entry `k` removed, if present.
pub open spec fn uses_remove(s: Seq<(CellId, u32)>, k: (CellId, u32)) -> Seq<(CellId, u32)> {
    if s.contains(k) {
        s.remove(uses_below(s, use_key(k)) as int)
    } else {
        s
    }
}

pub open spec fn regions_insert(s: Seq<RegionId>, r: RegionId) -> Seq<RegionId> {
    s.insert(regions_below(s, r) as int, r)
}

pub open spec fn regions_remove(s: Seq<RegionId>, r: RegionId) -> Seq<RegionId> {
    if s.contains(r) {
        s.remove(regions_below(s, r) as int)
    } else {
        s
    }
}

proof fn lemma_uses_below_bound(s: Seq<(CellId, u32)>, k: int)
    ensures
        uses_below(s, k) <= s.len(),
        forall|i: int| 0 <= i < uses_below(s, k) ==> use_key(#[trigger] s[i]) < k,
        uses_below(s, k) < s.len() ==> use_key(s[uses_below(s, k) as int]) >= k,
    decreases s.len(),
{
    if s.len() > 0 && use_key(s[0]) < k {
        lemma_uses_below_bound(s.drop_first(), k);
        assert forall|i: int| 0 <= i < uses_below(s, k) implies use_key(#[trigger] s[i]) < k by {
            if i > 0 {
                assert(s[i] == s.drop_first()[i - 1]);
            }
        }
    }
}

proof fn lemma_regions_below_bound(s: Seq<RegionId>, r: RegionId)
    ensures
        regions_below(s, r) <= s.len(),
        forall|i: int| 0 <= i < regions_below(s, r) ==> (#[trigger] s[i]).0 < r.0,
        regions_below(s, r) < s.len() ==> s[regions_below(s, r) as int].0 >= r.0,
    decreases s.len(),
{
    if s.len() > 0 && s[0].0 < r.0 {
        lemma_regions_below_bound(s.drop_first(), r);
        assert forall|i: int| 0 <= i < regions_below(s, r) implies (#[trigger] s[i]).0 < r.0 by {
            if i > 0 {
                assert(s[i] == s.drop_first()[i - 1]);
            }
        }
    }
}

/// In a sorted row, the position of an entry is the count of entries below it.
proof fn lemma_uses_index(s: Seq<(CellId, u32)>, i: int)
    requires
        uses_sorted(s),
        0 <= i < s.len(),
    ensures
        uses_below(s, use_key(s[i])) == i,
{
    lemma_uses_below_bound(s, use_key(s[i]));
    let p = uses_below(s, use_key(s[i]));
    if p < i {
        assert(use_key(s[p as int]) < use_key(s[i]));
    } else if p > i {
        assert(use_key(s[i]) < use_key(s[i]));
    }
}

proof fn lemma_regions_index(s: Seq<RegionId>, i: int)
    requires
        regions_sorted(s),
        0 <= i < s.len(),
    ensures
        regions_below(s, s[i]) == i,
{
    lemma_regions_below_bound(s, s[i]);
    let p = regions_below(s, s[i]);
    if p < i {
        assert(s[p as int].0 < s[i].0);
    } else if p > i {
        assert(s[i].0 < s[i].0);
    }
}

/// Inserting an entry adds exactly that entry, whatever the row's order.
pub proof fn lemma_uses_insert_members(s: Seq<(CellId, u32)>, k: (CellId, u32))
    ensures
        forall|x: (CellId, u32)| #[trigger] uses_insert(s, k).contains(x) <==> (s.contains(x) || x == k),
{
    lemma_uses_below_bound(s, use_key(k));
    let p = uses_below(s, use_key(k)) as int;
    let t = uses_insert(s, k);
    assert forall|x: (CellId, u32)| #[trigger] t.contains(x) <==> (s.contains(x) || x == k) by {
        if t.contains(x) {
            let i = choose|i: int| 0 <= i < t.len() && #[trigger] t[i] == x;
            if i < p {
                assert(s[i] == x);
            } else if i > p {
                assert(s[i - 1] == x);
            }
        }
        if s.contains(x) {
            let i = choose|i: int| 0 <= i < s.len() && #[trigger] s[i] == x;
            if i < p {
                assert(t[i] == x);
            } else {
                assert(t[i + 1] == x);
            }
        }
        if x == k {
            assert(t[p] == x);
        }
    }
}

/// Inserting into a sorted row keeps it sorted (when the entry is new) and
/// adds exactly that entry.
pub proof fn lemma_uses_insert(s: Seq<(CellId, u32)>, k: (CellId, u32))
    requires
        uses_sorted(s),
        !s.contains(k),
    ensures
        uses_sorted(uses_insert(s, k)),
        forall|x: (CellId, u32)| #[trigger] uses_insert(s, k).contains(x) <==> (s.contains(x) || x == k),
{
    lemma_uses_below_bound(s, use_key(k));
    let p = uses_below(s, use_key(k)) as int;
    let t = uses_insert(s, k);
    if p < s.len() {
        assert(use_key(s[p]) != use_key(k)) by {
            if use_key(s[p]) == use_key(k) {
                assert(s[p].0.0 == k.0.0 && s[p].1 == k.1);
                assert(s[p] == k);
            }
        }
    }
    assert forall|i: int, j: int| 0 <= i < j < t.len() implies use_key(t[i]) < use_key(t[j]) by {
        if j < p {
        } else if j == p {
        } else if i < p {
            assert(t[j] == s[j - 1]);
        } else if i == p {
            assert(t[j] == s[j - 1]);
            assert(use_key(s[p]) <= use_key(s[j - 1]));
        } else {
            assert(t[j] == s[j - 1]);
            assert(t[i] == s[i - 1]);
        }
    }
    assert forall|x: (CellId, u32)| #[trigger] t.contains(x) <==> (s.contains(x) || x == k) by {
        if t.contains(x) {
            let i = choose|i: int| 0 <= i < t.len() && #[trigger] t[i] == x;
            if i < p {
                assert(s[i] == x);
            } else if i > p {
                assert(s[i - 1] == x);
            }
        }
        if s.contains(x) {
            let i = choose|i: int| 0 <= i < s.len() && #[trigger] s[i] == x;
            if i < p {
                assert(t[i] == x);
            } else {
                assert(t[i + 1] == x);
            }
        }
        if x == k {
            assert(t[p] == x);
        }
    }
}

/// Removing from a sorted row keeps it sorted and drops exactly that entry.
pub proof fn lemma_uses_remove(s: Seq<(CellId, u32)>, k: (CellId, u32))
    requires
        uses_sorted(s),
    ensures
        uses_sorted(uses_remove(s, k)),
        forall|x: (CellId, u32)| #[trigger] uses_remove(s, k).contains(x) <==> (s.contains(x) && x != k),
{
    if s.contains(k) {
        let i0 = choose|i: int| 0 <= i < s.len() && #[trigger] s[i] == k;
        lemma_uses_index(s, i0);
        let t = uses_remove(s, k);
        assert(t =~= s.remove(i0));
        assert forall|i: int, j: int| 0 <= i < j < t.len() implies use_key(t[i]) < use_key(t[j]) by {
            if j < i0 {
            } else if i < i0 {
                assert(t[j] == s[j + 1]);
            } else {
                assert(t[j] == s[j + 1]);
                assert(t[i] == s[i + 1]);
            }
        }
        assert forall|x: (CellId, u32)| #[trigger] t.contains(x) <==> (s.contains(x) && x != k) by {
            if t.contains(x) {
                let i = choose|i: int| 0 <= i < t.len() && #[trigger] t[i] == x;
                if i < i0 {
                    assert(s[i] == x);
                    assert(use_key(s[i]) < use_key(s[i0]));
                } else {
                    assert(s[i + 1] == x);
                    assert(use_key(s[i0]) < use_key(s[i + 1]));
                }
            }
            if s.contains(x) && x != k {
                let i = choose|i: int| 0 <= i < s.len() && #[trigger] s[i] == x;
                if i < i0 {
                    assert(t[i] == x);
                } else {
                    assert(i != i0);
                    assert(t[i - 1] == x);
                }
            }
        }
    }
}

/// Inserting/removing a region in a sorted row keeps it sorted and changes
/// membership by exactly that region.
pub proof fn lemma_regions_insert(s: Seq<RegionId>, r: RegionId)
    requires
        regions_sorted(s),
        !s.contains(r),
    ensures
        regions_sorted(regions_insert(s, r)),
        forall|x: RegionId| #[trigger] regions_insert(s, r).contains(x) <==> (s.contains(x) || x == r),
{
    lemma_regions_below_bound(s, r);
    let p = regions_below(s, r) as int;
    let t = regions_insert(s, r);
    if p < s.len() {
        assert(s[p].0 != r.0) by {
            if s[p].0 == r.0 {
                assert(s[p] == r);
            }
        }
    }
    assert forall|i: int, j: int| 0 <= i < j < t.len() implies t[i].0 < t[j].0 by {
        if j < p {
        } else if j == p {
        } else if i < p {
            assert(t[j] == s[j - 1]);
        } else if i == p {
            assert(t[j] == s[j - 1]);
            assert(s[p].0 <= s[j - 1].0);
        } else {
            assert(t[j] == s[j - 1]);
            assert(t[i] == s[i - 1]);
        }
    }
    assert forall|x: RegionId| #[trigger] t.contains(x) <==> (s.contains(x) || x == r) by {
        if t.contains(x) {
            let i = choose|i: int| 0 <= i < t.len() && #[trigger] t[i] == x;
            if i < p {
                assert(s[i] == x);
            } else if i > p {
                assert(s[i - 1] == x);
            }
        }
        if s.contains(x) {
            let i = choose|i: int| 0 <= i < s.len() && #[trigger] s[i] == x;
            if i < p {
                assert(t[i] == x);
            } else {
                assert(t[i + 1] == x);
            }
        }
        if x == r {
            assert(t[p] == x);
        }
    }
}

pub proof fn lemma_regions_remove(s: Seq<RegionId>, r: RegionId)
    requires
        regions_sorted(s),
    ensures
        regions_sorted(regions_remove(s, r)),
        forall|x: RegionId| #[trigger] regions_remove(s, r).contains(x) <==> (s.contains(x) && x != r),
{
    if s.contains(r) {
        let i0 = choose|i: int| 0 <= i < s.len() && #[trigger] s[i] == r;
        lemma_regions_index(s, i0);
        let t = regions_remove(s, r);
        assert(t =~= s.remove(i0));
        assert forall|i: int, j: int| 0 <= i < j < t.len() implies t[i].0 < t[j].0 by {
            if j < i0 {
            } else if i < i0 {
                assert(t[j] == s[j + 1]);
            } else {
                assert(t[j] == s[j + 1]);
                assert(t[i] == s[i + 1]);
            }
        }
        assert forall|x: RegionId| #[trigger] t.contains(x) <==> (s.contains(x) && x != r) by {
            if t.contains(x) {
                let i = choose|i: int| 0 <= i < t.len() && #[trigger] t[i] == x;
                if i < i0 {
                    assert(s[i] == x);
                    assert(s[i].0 < s[i0].0);
                } else {
                    assert(s[i + 1] == x);
                    assert(s[i0].0 < s[i + 1].0);
                }
            }
            if s.contains(x) && x != r {
                let i = choose|i: int| 0 <= i < s.len() && #[trigger] s[i] == x;
                if i < i0 {
                    assert(t[i] == x);
                } else {
                    assert(i != i0);
                    assert(t[i - 1] == x);
                }
            }
        }
    }
}

/// Two ascending rows with the same entries are the same row.
pub proof fn lemma_uses_sorted_unique(a: Seq<(CellId, u32)>, b: Seq<(CellId, u32)>)
    requires
        uses_sorted(a),
        uses_sorted(b),
        forall|x: (CellId, u32)| a.contains(x) <==> b.contains(x),
    ensures
        a == b,
    decreases a.len(),
{
    if a.len() == 0 {
        if b.len() > 0 {
            assert(b.contains(b[0]));
        }
        assert(a =~= b);
    } else {
        assert(a.contains(a[0]));
        assert(b.len() > 0);
        assert(b.contains(b[0]));
        let ia = choose|i: int| 0 <= i < a.len() && #[trigger] a[i] == b[0];
        let ib = choose|i: int| 0 <= i < b.len() && #[trigger] b[i] == a[0];
        if ia > 0 {
            assert(use_key(a[0]) < use_key(a[ia]));
        }
        if ib > 0 {
            assert(use_key(b[0]) < use_key(b[ib]));
        }
        assert(a[0] == b[0]);
        let ta = a.drop_first();
        let tb = b.drop_first();
        assert forall|x: (CellId, u32)| ta.contains(x) <==> tb.contains(x) by {
            if ta.contains(x) {
                let i = choose|i: int| 0 <= i < ta.len() && #[trigger] ta[i] == x;
                assert(a[i + 1] == x);
                assert(use_key(a[0]) < use_key(a[i + 1]));
                assert(b.contains(x));
                let j = choose|j: int| 0 <= j < b.len() && #[trigger] b[j] == x;
                assert(j != 0);
                assert(tb[j - 1] == x);
            }
            if tb.contains(x) {
                let i = choose|i: int| 0 <= i < tb.len() && #[trigger] tb[i] == x;
                assert(b[i + 1] == x);
                assert(use_key(b[0]) < use_key(b[i + 1]));
                assert(a.contains(x));
                let j = choose|j: int| 0 <= j < a.len() && #[trigger] a[j] == x;
                assert(j != 0);
                assert(ta[j - 1] == x);
            }
        }
        assert forall|i: int, j: int| 0 <= i < j < ta.len() implies use_key(ta[i]) < use_key(ta[j]) by {
            assert(ta[i] == a[i + 1] && ta[j] == a[j + 1]);
        }
        assert forall|i: int, j: int| 0 <= i < j < tb.len() implies use_key(tb[i]) < use_key(tb[j]) by {
            assert(tb[i] == b[i + 1] && tb[j] == b[j + 1]);
        }
        lemma_uses_sorted_unique(ta, tb);
        assert(a =~= seq![a[0]] + ta);
        assert(b =~= seq![b[0]] + tb);
    }
}

pub proof fn lemma_regions_sorted_unique(a: Seq<RegionId>, b: Seq<RegionId>)
    requires
        regions_sorted(a),
        regions_sorted(b),
        forall|x: RegionId| a.contains(x) <==> b.contains(x),
    ensures
        a == b,
    decreases a.len(),
{
    if a.len() == 0 {
        if b.len() > 0 {
            assert(b.contains(b[0]));
        }
        assert(a =~= b);
    } else {
        assert(a.contains(a[0]));
        assert(b.len() > 0);
        assert(b.contains(b[0]));
        let ia = choose|i: int| 0 <= i < a.len() && #[trigger] a[i] == b[0];
        let ib = choose|i: int| 0 <= i < b.len() && #[trigger] b[i] == a[0];
        if ia > 0 {
            assert(a[0].0 < a[ia].0);
        }
        if ib > 0 {
            assert(b[0].0 < b[ib].0);
        }
        assert(a[0] == b[0]);
        let ta = a.drop_first();
        let tb = b.drop_first();
        assert forall|x: RegionId| ta.contains(x) <==> tb.contains(x) by {
            if ta.contains(x) {
                let i = choose|i: int| 0 <= i < ta.len() && #[trigger] ta[i] == x;
                assert(a[i + 1] == x);
                assert(a[0].0 < a[i + 1].0);
                assert(b.contains(x));
                let j = choose|j: int| 0 <= j < b.len() && #[trigger] b[j] == x;
                assert(j != 0);
                assert(tb[j - 1] == x);
            }
            if tb.contains(x) {
                let i = choose|i: int| 0 <= i < tb.len() && #[trigger] tb[i] == x;
                assert(b[i + 1] == x);
                assert(b[0].0 < b[i + 1].0);
                assert(a.contains(x));
                let j = choose|j: int| 0 <= j < a.len() && #[trigger] a[j] == x;
                assert(j != 0);
                assert(ta[j - 1] == x);
            }
        }
        assert forall|i: int, j: int| 0 <= i < j < ta.len() implies ta[i].0 < ta[j].0 by {
            assert(ta[i] == a[i + 1] && ta[j] == a[j + 1]);
        }
        assert forall|i: int, j: int| 0 <= i < j < tb.len() implies tb[i].0 < tb[j].0 by {
            assert(tb[i] == b[i + 1] && tb[j] == b[j + 1]);
        }
        lemma_regions_sorted_unique(ta, tb);
        assert(a =~= seq![a[0]] + ta);
        assert(b =~= seq![b[0]] + tb);
    }
}

/// Insert `k` into a row at its lower-bound position.
fn row_insert_use(row: &mut Vec<(CellId, u32)>, key: (CellId, u32))
    ensures
        final(row)@ == uses_insert(old(row)@, key),
{
    let pos = lower_bound_uses(row, key);
    proof { lemma_uses_below_bound(row@, use_key(key)); }
    row.insert(pos, key);
}

/// Remove `k` from a sorted row if present (the binary-search removal).
fn row_remove_use(row: &mut Vec<(CellId, u32)>, key: (CellId, u32))
    ensures
        uses_sorted(old(row)@) ==> final(row)@ == uses_remove(old(row)@, key),
        !uses_sorted(old(row)@) ==> final(row)@.len() <= old(row)@.len(),
{
    let pos = lower_bound_uses(row, key);
    proof { lemma_uses_below_bound(row@, use_key(key)); }
    if pos < row.len() && use_eq(row[pos], key) {
        row.remove(pos);
        proof {
            assert(old(row)@.contains(key)) by { assert(old(row)@[pos as int] == key); }
        }
    } else {
        proof {
            if uses_sorted(old(row)@) && old(row)@.contains(key) {
                let i = choose|i: int| 0 <= i < old(row)@.len() && #[trigger] old(row)@[i] == key;
                lemma_uses_index(old(row)@, i);
            }
        }
    }
}

fn row_insert_region(row: &mut Vec<RegionId>, r: RegionId)
    ensures
        final(row)@ == regions_insert(old(row)@, r),
{
    let pos = lower_bound_regions(row, r);
    proof { lemma_regions_below_bound(row@, r); }
    row.insert(pos, r);
}

fn row_remove_region(row: &mut Vec<RegionId>, r: RegionId)
    ensures
        regions_sorted(old(row)@) ==> final(row)@ == regions_remove(old(row)@, r),
        !regions_sorted(old(row)@) ==> final(row)@.len() <= old(row)@.len(),
{
    let pos = lower_bound_regions(row, r);
    proof { lemma_regions_below_bound(row@, r); }
    if pos < row.len() && row[pos].0 == r.0 {
        let x = row.remove(pos);
        proof {
            assert(x == r);
            assert(old(row)@.contains(r)) by { assert(old(row)@[pos as int] == r); }
        }
    } else {
        proof {
            if regions_sorted(old(row)@) && old(row)@.contains(r) {
                let i = choose|i: int| 0 <= i < old(row)@.len() && #[trigger] old(row)@[i] == r;
                lemma_regions_index(old(row)@, i);
            }
        }
    }
}


/// A copy of a list of region ids.
pub fn copy_regions(v: &Vec<RegionId>) -> (c: Vec<RegionId>)
    ensures
        c@ == v@,
{
    let mut c: Vec<RegionId> = Vec::new();
    let mut i: usize = 0;
    while i < v.len()
        invariant
            i <= v@.len(),
            c@ == v@.take(i as int),
        decreases v@.len() - i,
    {
        c.push(v[i]);
        i = i + 1;
        assert(c@ =~= v@.take(i as int));
    }
    assert(v@.take(v@.len() as int) =~= v@);
    c
}

fn contains_region(v: &Vec<RegionId>, r: RegionId) -> (b: bool)
    ensures
        b == v@.contains(r),
{
    let mut i: usize = 0;
    while i < v.len()
        invariant
            i <= v@.len(),
            forall|k: int| 0 <= k < i ==> v@[k] != r,
        decreases v@.len() - i,
    {
        if v[i].0 == r.0 {
            assert(v@[i as int] == r);
            return true;
        }
        i = i + 1;
    }
    false
}

/// The row count after growing rows to fit every target in `s` below the
/// growth cap.
pub open spec fn grown_len(n: nat, s: Seq<RegionId>) -> nat
    decreases s.len(),
{
    if s.len() == 0 {
        n
    } else {
        let t = s.last();
        let m = grown_len(n, s.drop_last());
        if (t.0 as int) < ROW_GROW_LIMIT && m < t.0 + 1 {
            (t.0 + 1) as nat
        } else {
            m
        }
    }
}

proof fn lemma_grown_len(n: nat, s: Seq<RegionId>)
    ensures
        grown_len(n, s) >= n,
        grown_len(n, s) <= if n < ROW_GROW_LIMIT { ROW_GROW_LIMIT as nat } else { n },
        forall|k: int| 0 <= k < s.len() && (#[trigger] s[k]).0 < ROW_GROW_LIMIT ==> s[k].0 < grown_len(n, s),
    decreases s.len(),
{
    if s.len() > 0 {
        lemma_grown_len(n, s.drop_last());
        assert forall|k: int| 0 <= k < s.len() && (#[trigger] s[k]).0 < ROW_GROW_LIMIT implies s[k].0 < grown_len(n, s) by {
            if k < s.len() - 1 {
                assert(s[k] == s.drop_last()[k]);
            }
        }
    }
}

impl UseTables {
    /// The tables' successor and predecessor rows agree: preds rows are
    /// ascending and hold exactly the regions whose succs row names them,
    /// succs rows hold no duplicate, and a target without a preds row is
    /// one beyond the growth cap.
    pub open spec fn links_agree(&self) -> bool {
        &&& self.succs@.len() == self.preds@.len()
        &&& forall|r: int| 0 <= r < self.succs@.len() ==> no_dup_regions(#[trigger] self.succs@[r]@)
        &&& forall|t: int| 0 <= t < self.preds@.len() ==> regions_sorted(#[trigger] self.preds@[t]@)
        &&& forall|t: int, r: RegionId| 0 <= t < self.preds@.len() ==>
            (#[trigger] self.preds@[t]@.contains(r) <==> (r.0 < self.succs@.len()
                && self.succs@[r.0 as int]@.contains(RegionId(t as u32))))
        &&& forall|r: int, k: int| 0 <= r < self.succs@.len() && 0 <= k < self.succs@[r]@.len()
            ==> (#[trigger] self.succs@[r]@[k]).0 < self.preds@.len() || self.succs@[r]@[k].0
            >= ROW_GROW_LIMIT
        &&& self.preds@.len() <= u32::MAX
    }

    /// Ensure succ/pred rows exist for `n` regions. Only ever grows.
    pub fn ensure_rows(&mut self, n: usize)
        ensures
            final(self).users == old(self).users,
            final(self).succs@.len() == if old(self).succs@.len() < n { n as int } else { old(self).succs@.len() as int },
            final(self).preds@.len() == if old(self).preds@.len() < n { n as int } else { old(self).preds@.len() as int },
            forall|i: int| 0 <= i < old(self).succs@.len() ==> final(self).succs@[i] == old(self).succs@[i],
            forall|i: int| 0 <= i < old(self).preds@.len() ==> final(self).preds@[i] == old(self).preds@[i],
            forall|i: int| old(self).succs@.len() <= i < final(self).succs@.len() ==> final(self).succs@[i]@.len() == 0,
            forall|i: int| old(self).preds@.len() <= i < final(self).preds@.len() ==> final(self).preds@[i]@.len() == 0,
            old(self).links_agree() && n <= ROW_GROW_LIMIT ==> final(self).links_agree(),
    {
        while self.succs.len() < n
            invariant
                self.users == old(self).users,
                self.preds == old(self).preds,
                old(self).succs@.len() <= self.succs@.len(),
                old(self).succs@.len() < n ==> self.succs@.len() <= n,
                old(self).succs@.len() >= n ==> self.succs@.len() == old(self).succs@.len(),
                forall|i: int| 0 <= i < old(self).succs@.len() ==> self.succs@[i] == old(self).succs@[i],
                forall|i: int| old(self).succs@.len() <= i < self.succs@.len() ==> self.succs@[i]@.len() == 0,
            decreases n - self.succs.len(),
        {
            self.succs.push(Vec::new());
        }
        while self.preds.len() < n
            invariant
                self.users == old(self).users,
                self.succs@.len() == if old(self).succs@.len() < n { n as int } else { old(self).succs@.len() as int },
                forall|i: int| 0 <= i < old(self).succs@.len() ==> self.succs@[i] == old(self).succs@[i],
                forall|i: int| old(self).succs@.len() <= i < self.succs@.len() ==> self.succs@[i]@.len() == 0,
                old(self).preds@.len() <= self.preds@.len(),
                old(self).preds@.len() < n ==> self.preds@.len() <= n,
                old(self).preds@.len() >= n ==> self.preds@.len() == old(self).preds@.len(),
                forall|i: int| 0 <= i < old(self).preds@.len() ==> self.preds@[i] == old(self).preds@[i],
                forall|i: int| old(self).preds@.len() <= i < self.preds@.len() ==> self.preds@[i]@.len() == 0,
            decreases n - self.preds.len(),
        {
            self.preds.push(Vec::new());
        }
        proof {
            if old(self).links_agree() && n <= ROW_GROW_LIMIT {
                let o = *old(self);
                assert forall|r: int| 0 <= r < self.succs@.len() implies no_dup_regions(#[trigger] self.succs@[r]@) by {
                    if r < o.succs@.len() {
                        assert(self.succs@[r] == o.succs@[r]);
                    }
                }
                assert forall|t: int| 0 <= t < self.preds@.len() implies regions_sorted(#[trigger] self.preds@[t]@) by {
                    if t < o.preds@.len() {
                        assert(self.preds@[t] == o.preds@[t]);
                    }
                }
                assert forall|t: int, r: RegionId| 0 <= t < self.preds@.len() implies
                    (#[trigger] self.preds@[t]@.contains(r) <==> (r.0 < self.succs@.len()
                    && self.succs@[r.0 as int]@.contains(RegionId(t as u32)))) by {
                    if t < o.preds@.len() {
                        assert(self.preds@[t] == o.preds@[t]);
                        if r.0 >= o.succs@.len() && r.0 < self.succs@.len() {
                            assert(self.succs@[r.0 as int]@.len() == 0);
                        }
                        if r.0 < o.succs@.len() {
                            assert(self.succs@[r.0 as int] == o.succs@[r.0 as int]);
                        }
                    } else {
                        assert(self.preds@[t]@.len() == 0);
                        if r.0 < o.succs@.len() {
                            assert(self.succs@[r.0 as int] == o.succs@[r.0 as int]);
                            if o.succs@[r.0 as int]@.contains(RegionId(t as u32)) {
                                let k = choose|k: int| 0 <= k < o.succs@[r.0 as int]@.len() && #[trigger] o.succs@[r.0 as int]@[k] == RegionId(t as u32);
                                assert(o.succs@[r.0 as int]@[k].0 < o.preds@.len() || o.succs@[r.0 as int]@[k].0 >= ROW_GROW_LIMIT);
                            }
                        } else if r.0 < self.succs@.len() {
                            assert(self.succs@[r.0 as int]@.len() == 0);
                        }
                    }
                }
                assert forall|r: int, k: int| 0 <= r < self.succs@.len() && 0 <= k < self.succs@[r]@.len()
                    implies (#[trigger] self.succs@[r]@[k]).0 < self.preds@.len() || self.succs@[r]@[k].0 >= ROW_GROW_LIMIT by {
                    if r < o.succs@.len() {
                        assert(self.succs@[r] == o.succs@[r]);
                    }
                }
            }
        }
    }

    /// Register one use edge (def <- user.slot) in def's row, at its
    /// ordered position. A def beyond the rows (a forward reference) is
    /// not indexed.
    pub fn add_use(&mut self, def: CellId, user: CellId, slot: u32)
        ensures
            final(self).succs == old(self).succs,
            final(self).preds == old(self).preds,
            final(self).users@.len() == old(self).users@.len(),
            forall|i: int| 0 <= i < old(self).users@.len() && i != def.0 ==> final(self).users@[i] == old(self).users@[i],
            def.0 < old(self).users@.len() ==> final(self).users@[def.0 as int]@ == uses_insert(old(self).users@[def.0 as int]@, (user, slot)),
    {
        if (def.0 as usize) >= self.users.len() {
            return;
        }
        let d = def.0 as usize;
        row_insert_use(&mut self.users[d], (user, slot));
    }

    /// Unregister one use edge. No-op if absent.
    pub fn remove_use(&mut self, def: CellId, user: CellId, slot: u32)
        ensures
            final(self).succs == old(self).succs,
            final(self).preds == old(self).preds,
            final(self).users@.len() == old(self).users@.len(),
            forall|i: int| 0 <= i < old(self).users@.len() && i != def.0 ==> final(self).users@[i] == old(self).users@[i],
            def.0 < old(self).users@.len() && uses_sorted(old(self).users@[def.0 as int]@) ==> final(self).users@[def.0 as int]@ == uses_remove(old(self).users@[def.0 as int]@, (user, slot)),
    {
        if (def.0 as usize) >= self.users.len() {
            return;
        }
        let d = def.0 as usize;
        row_remove_use(&mut self.users[d], (user, slot));
    }

    /// Move one use edge from one def to another (a retarget).
    pub fn move_use(&mut self, from: CellId, to: CellId, user: CellId, slot: u32)
        ensures
            final(self).succs == old(self).succs,
            final(self).preds == old(self).preds,
            final(self).users@.len() == old(self).users@.len(),
            forall|i: int| 0 <= i < old(self).users@.len() && i != from.0 && i != to.0 ==> final(self).users@[i] == old(self).users@[i],
            from != to && from.0 < old(self).users@.len() && uses_sorted(old(self).users@[from.0 as int]@) ==> final(self).users@[from.0 as int]@ == uses_remove(old(self).users@[from.0 as int]@, (user, slot)),
            from != to && to.0 < old(self).users@.len() ==> final(self).users@[to.0 as int]@ == uses_insert(old(self).users@[to.0 as int]@, (user, slot)),
            from == to ==> final(self).users == old(self).users,
    {
        if from.0 == to.0 {
            return;
        }
        self.remove_use(from, user, slot);
        self.add_use(to, user, slot);
    }

    /// Replace region r's successor set, repairing the preds row of every
    /// target that gained or lost the edge. Targets beyond the current rows
    /// (below the growth cap) grow the rows to fit.
    pub fn set_succs(&mut self, r: RegionId, new: Vec<RegionId>)
        ensures
            final(self).users == old(self).users,
            r.0 >= old(self).succs@.len() ==> final(self).succs == old(self).succs && final(self).preds == old(self).preds,
            r.0 < old(self).succs@.len() && old(self).links_agree() && no_dup_regions(new@) ==> {
                &&& final(self).links_agree()
                &&& final(self).succs@.len() == grown_len(old(self).succs@.len() as nat, new@)
                &&& final(self).succs@.len() >= old(self).succs@.len()
                &&& final(self).succs@[r.0 as int]@ == new@
                &&& forall|i: int| 0 <= i < old(self).succs@.len() && i != r.0 ==> #[trigger] final(self).succs@[i] == old(self).succs@[i]
                &&& forall|i: int| old(self).succs@.len() <= i < final(self).succs@.len() ==> (#[trigger] final(self).succs@[i])@.len() == 0
            },
    {
        if (r.0 as usize) >= self.succs.len() {
            return;
        }
        let ri = r.0 as usize;
        let ghost old_succs = self.succs@;
        let ghost old_preds = self.preds@;
        let ghost n0 = self.succs@.len() as nat;
        let mut old_row = copy_regions(&new);
        self.succs.set_and_swap(ri, &mut old_row);
        let ghost mid_succs = self.succs@;
        assert(old_row@ == old_succs[ri as int]@);
        // 1. every target that lost the edge drops r from its preds row
        let mut i: usize = 0;
        while i < old_row.len()
            invariant
                self.users == old(self).users,
                self.succs@ == mid_succs,
                mid_succs == old_succs.update(ri as int, mid_succs[ri as int]),
                mid_succs[ri as int]@ == new@,
                old_row@ == old_succs[ri as int]@,
                ri < old_succs.len(),
                old_succs == old(self).succs@,
                old_preds == old(self).preds@,
                self.preds@.len() == old_preds.len(),
                i <= old_row@.len(),
                old(self).links_agree() && no_dup_regions(new@) ==> {
                    &&& forall|t: int| 0 <= t < self.preds@.len() ==> regions_sorted(#[trigger] self.preds@[t]@)
                    &&& forall|t: int, x: RegionId| 0 <= t < self.preds@.len() ==> (#[trigger] self.preds@[t]@.contains(x) <==>
                        (old_preds[t]@.contains(x) && !(x == r && old_row@.take(i as int).contains(RegionId(t as u32)) && !new@.contains(RegionId(t as u32)))))
                },
            decreases old_row@.len() - i,
        {
            let t = old_row[i];
            let ghost before = self.preds@;
            if !contains_region(&new, t) {
                if (t.0 as usize) < self.preds.len() {
                    let ti = t.0 as usize;
                    proof {
                        if old(self).links_agree() && no_dup_regions(new@) {
                            lemma_regions_remove(self.preds@[ti as int]@, r);
                        }
                    }
                    row_remove_region(&mut self.preds[ti], r);
                }
            }
            proof {
                if old(self).links_agree() && no_dup_regions(new@) {
                    assert(old_row@.take(i + 1) =~= old_row@.take(i as int).push(t));
                    assert forall|tt: int, x: RegionId| 0 <= tt < self.preds@.len() implies (#[trigger] self.preds@[tt]@.contains(x) <==>
                        (old_preds[tt]@.contains(x) && !(x == r && old_row@.take(i + 1).contains(RegionId(tt as u32)) && !new@.contains(RegionId(tt as u32))))) by {
                        if tt != t.0 {
                            assert(self.preds@[tt] == before[tt]);
                            if old_row@.take(i + 1).contains(RegionId(tt as u32)) && !old_row@.take(i as int).contains(RegionId(tt as u32)) {
                                let k = choose|k: int| 0 <= k < i + 1 && #[trigger] old_row@.take(i + 1)[k] == RegionId(tt as u32);
                                if k < i {
                                    assert(old_row@.take(i as int)[k] == RegionId(tt as u32));
                                }
                            }
                        } else {
                            assert(RegionId(tt as u32) == t);
                            assert(old_row@.take(i + 1)[i as int] == t);
                        }
                    }
                }
            }
            i = i + 1;
        }
        proof {
            assert(old_row@.take(old_row@.len() as int) =~= old_row@);
        }
        // 2. every target that gained the edge adds r to its preds row
        let ghost mid_preds = self.preds@;
        let mut j: usize = 0;
        while j < new.len()
            invariant
                self.users == old(self).users,
                ri < old_succs.len(),
                old_succs == old(self).succs@,
                old_preds == old(self).preds@,
                old_row@ == old_succs[ri as int]@,
                mid_succs == old_succs.update(ri as int, mid_succs[ri as int]),
                mid_succs[ri as int]@ == new@,
                n0 == old_succs.len(),
                self.succs@.len() >= mid_succs.len(),
                self.preds@.len() >= mid_preds.len(),
                mid_preds.len() == old_preds.len(),
                forall|q: int| 0 <= q < mid_succs.len() ==> #[trigger] self.succs@[q] == mid_succs[q],
                forall|q: int| mid_succs.len() <= q < self.succs@.len() ==> (#[trigger] self.succs@[q])@.len() == 0,
                forall|q: int| mid_preds.len() <= q < self.preds@.len() ==> !(#[trigger] self.preds@[q])@.contains(r) || new@.take(j as int).contains(RegionId(q as u32)),
                j <= new@.len(),
                old(self).links_agree() && no_dup_regions(new@) ==> {
                    &&& self.succs@.len() == self.preds@.len()
                    &&& self.succs@.len() == grown_len(n0, new@.take(j as int))
                    &&& self.preds@.len() <= u32::MAX
                    &&& forall|t: int| 0 <= t < self.preds@.len() ==> regions_sorted(#[trigger] self.preds@[t]@)
                    &&& forall|t: int, x: RegionId| 0 <= t < mid_preds.len() && x != r ==> (#[trigger] self.preds@[t]@.contains(x) <==> old_preds[t]@.contains(x))
                    &&& forall|t: int, x: RegionId| mid_preds.len() <= t < self.preds@.len() && x != r ==> !(#[trigger] self.preds@[t]@.contains(x))
                    &&& forall|t: int| 0 <= t < self.preds@.len() ==> ((#[trigger] self.preds@[t]@).contains(r) <==>
                        ((old_row@.contains(RegionId(t as u32)) && new@.contains(RegionId(t as u32))) || new@.take(j as int).contains(RegionId(t as u32))))
                },
            decreases new@.len() - j,
        {
            let t = new[j];
            let ghost before = self.preds@;
            let ghost before_len = self.succs@.len();
            if !contains_region(&old_row, t) {
                if (t.0 as usize) < ROW_GROW_LIMIT {
                    self.ensure_rows(t.0 as usize + 1);
                }
                if (t.0 as usize) < self.preds.len() {
                    let ti = t.0 as usize;
                    proof {
                        if old(self).links_agree() && no_dup_regions(new@) {
                            if self.preds@[ti as int]@.contains(r) {
                                if ti < before.len() {
                                    assert(before[ti as int]@.contains(r));
                                    if new@.take(j as int).contains(t) {
                                        let k = choose|k: int| 0 <= k < j && #[trigger] new@.take(j as int)[k] == t;
                                        assert(new@[k] == new@[j as int]);
                                    }
                                }
                            }
                            lemma_regions_insert(self.preds@[ti as int]@, r);
                        }
                    }
                    row_insert_region(&mut self.preds[ti], r);
                }
            }
            proof {
                assert(new@.take(j + 1) =~= new@.take(j as int).push(t));
                assert(new@.take(j + 1).drop_last() =~= new@.take(j as int));
                if old(self).links_agree() && no_dup_regions(new@) {
                    lemma_grown_len(n0, new@.take(j + 1));
                    lemma_grown_len(n0, new@.take(j as int));
                    assert forall|tt: int| 0 <= tt < self.preds@.len() implies ((#[trigger] self.preds@[tt]@).contains(r) <==>
                        ((old_row@.contains(RegionId(tt as u32)) && new@.contains(RegionId(tt as u32))) || new@.take(j + 1).contains(RegionId(tt as u32)))) by {
                        let rt = RegionId(tt as u32);
                        assert(rt.0 == tt);
                        assert(new@.take(j + 1)[j as int] == t);
                        if tt == t.0 {
                            assert(rt == t);
                            assert(new@.contains(t));
                            assert(new@.take(j + 1).contains(t));
                        } else {
                            if new@.take(j + 1).contains(rt) {
                                let k = choose|k: int| 0 <= k < j + 1 && #[trigger] new@.take(j + 1)[k] == rt;
                                assert(k != j);
                                assert(new@.take(j as int)[k] == rt);
                                assert(new@.take(j as int).contains(rt));
                            }
                            if tt < before.len() {
                                assert(self.preds@[tt] == before[tt]);
                            } else {
                                assert(self.preds@[tt]@.len() == 0);
                                assert(tt < ROW_GROW_LIMIT);
                                if old_row@.contains(rt) {
                                    let k = choose|k: int| 0 <= k < old_row@.len() && #[trigger] old_row@[k] == rt;
                                    assert(old_succs[ri as int]@[k] == rt);
                                }
                                if new@.take(j as int).contains(rt) {
                                    let k = choose|k: int| 0 <= k < j && #[trigger] new@.take(j as int)[k] == rt;
                                    assert(new@.take(j as int)[k].0 < grown_len(n0, new@.take(j as int)));
                                }
                            }
                        }
                    }
                }
                assert forall|q: int| mid_preds.len() <= q < self.preds@.len() implies !(#[trigger] self.preds@[q])@.contains(r) || new@.take(j + 1).contains(RegionId(q as u32)) by {
                    if q < before.len() && q != t.0 {
                        assert(self.preds@[q] == before[q]);
                        if new@.take(j as int).contains(RegionId(q as u32)) {
                            let k = choose|k: int| 0 <= k < j && #[trigger] new@.take(j as int)[k] == RegionId(q as u32);
                            assert(new@.take(j + 1)[k] == RegionId(q as u32));
                        }
                    }
                    if q == t.0 {
                        assert(new@.take(j + 1)[j as int] == t);
                    }
                }
            }
            j = j + 1;
        }
        proof {
            assert(new@.take(new@.len() as int) =~= new@);
            if old(self).links_agree() && no_dup_regions(new@) {
                lemma_grown_len(n0, new@);
                let fin = *self;
                assert forall|q: int| 0 <= q < fin.succs@.len() implies no_dup_regions(#[trigger] fin.succs@[q]@) by {
                    if q < mid_succs.len() && q != ri {
                        assert(fin.succs@[q] == old_succs[q]);
                    }
                }
                assert forall|t: int, x: RegionId| 0 <= t < fin.preds@.len() implies (#[trigger] fin.preds@[t]@.contains(x) <==> (x.0 < fin.succs@.len()
                    && fin.succs@[x.0 as int]@.contains(RegionId(t as u32)))) by {
                    if x == r {
                        assert(fin.succs@[x.0 as int]@ == new@);
                        if old_row@.contains(RegionId(t as u32)) && new@.contains(RegionId(t as u32)) {
                        }
                    } else if t < mid_preds.len() {
                        if x.0 < old_succs.len() {
                            assert(fin.succs@[x.0 as int] == old_succs[x.0 as int]);
                        } else if x.0 < fin.succs@.len() {
                            assert(fin.succs@[x.0 as int]@.len() == 0);
                        }
                    } else {
                        if x.0 < old_succs.len() {
                            assert(fin.succs@[x.0 as int] == old_succs[x.0 as int]);
                            if fin.succs@[x.0 as int]@.contains(RegionId(t as u32)) {
                                let k = choose|k: int| 0 <= k < old_succs[x.0 as int]@.len() && #[trigger] old_succs[x.0 as int]@[k] == RegionId(t as u32);
                                assert(old_succs[x.0 as int]@[k].0 < old_preds.len() || old_succs[x.0 as int]@[k].0 >= ROW_GROW_LIMIT);
                            }
                        } else if x.0 < fin.succs@.len() {
                            assert(fin.succs@[x.0 as int]@.len() == 0);
                        }
                    }
                }
                assert forall|q: int, k: int| 0 <= q < fin.succs@.len() && 0 <= k < fin.succs@[q]@.len()
                    implies (#[trigger] fin.succs@[q]@[k]).0 < fin.preds@.len() || fin.succs@[q]@[k].0 >= ROW_GROW_LIMIT by {
                    if q == ri {
                        assert(fin.succs@[q]@[k] == new@[k]);
                    } else if q < old_succs.len() {
                        assert(fin.succs@[q] == old_succs[q]);
                    }
                }
            }
        }
    }
}

} // verus!
