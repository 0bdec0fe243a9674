//! Constant folding: an arith or compare cell whose two operands are
//! constants, and whose checked value exists, is replaced by a constant
//! at its position in its region; every use is retargeted to the new
//! constant; the folded cell is removed with a ledger entry. Sweeps run
//! region by region until one changes nothing.
//!
//! Integer folding is checked: overflow, division by zero and
//! `MIN / -1` leave the cell as it is.

use vstd::prelude::*;
use crate::cell::{ArithOp, Cell, CellKind, CellV, CmpOp, KindV, copy_ids};
use crate::chars::push_str;
use crate::conserve::{added_in, conserve_verdict, count_removes, ledgered_in};
use crate::diff::{DiffRecord, Edit, all_ws};
use crate::fabric::{Fabric, cell_at, is_use_of, refers_into, same_content};
use crate::id::{CellId, RegionId, cell_id_text};
use crate::semmut::{EVAL_DEPTH_LIMIT, arith_exec, arith_value, compare_exec, compare_value, df_eval, float_pair};
use crate::text::{no_float_consts, render_cell};
use crate::ty::{ConstVal, const_ty};

verus! {

/// The fold table for arithmetic: checked integer arithmetic on two
/// values of one integer type; `None` (do not fold) on overflow, on
/// division by zero and for mixed types. Float pairs are outside this
/// library.
pub fn eval_arith(op: ArithOp, a: ConstVal, b: ConstVal) -> (r: Option<ConstVal>)
    requires
        !float_pair(Some(a), Some(b)),
    ensures
        r == arith_value(op, a, b),
{
    arith_exec(op, a, b)
}

/// The fold table for comparisons: an `i1` result for two values of one
/// type (`i1` only under `eq` and `ne`); `None` otherwise. Float pairs
/// are outside this library.
pub fn eval_cmp(op: CmpOp, a: ConstVal, b: ConstVal) -> (r: Option<ConstVal>)
    requires
        !float_pair(Some(a), Some(b)),
    ensures
        r == match compare_value(op, a, b) {
            Some(x) => Some(ConstVal::I1(x)),
            None => None,
        },
{
    match compare_exec(op, a, b) {
        Some(x) => Some(ConstVal::I1(x)),
        None => None,
    }
}

/// The value of `id` when it is a constant cell.
pub open spec fn const_of(f: Fabric, id: CellId) -> Option<ConstVal> {
    match cell_at(f, id.0 as int) {
        Some(c) => match c.kind {
            KindV::Const { val, .. } => Some(val),
            _ => None,
        },
        None => None,
    }
}

/// The folded value of cell `c` in `f`, if it folds.
pub open spec fn fold_value(f: Fabric, c: crate::cell::CellV) -> Option<ConstVal> {
    match c.kind {
        KindV::Arith { op, .. } => match (const_of(f, c.operands[0]), const_of(f, c.operands[1])) {
            (Some(a), Some(b)) => arith_value(op, a, b),
            _ => None,
        },
        KindV::Cmp { op } => match (const_of(f, c.operands[0]), const_of(f, c.operands[1])) {
            (Some(a), Some(b)) => match compare_value(op, a, b) {
                Some(x) => Some(ConstVal::I1(x)),
                None => None,
            },
            _ => None,
        },
        _ => None,
    }
}

/// Cell `i` is present and folds.
pub open spec fn foldable(f: Fabric, i: int) -> bool {
    cell_at(f, i) is Some && fold_value(f, cell_at(f, i)->0) is Some
}

/// Every arith and compare cell names two operands.
pub open spec fn binary_cells(f: Fabric) -> bool {
    forall|i: int| #[trigger] cell_at(f, i) is Some ==> ((cell_at(f, i)->0.kind is Arith || cell_at(f, i)->0.kind is Cmp)
        ==> cell_at(f, i)->0.operands.len() >= 2)
}

/// Every operand names an id inside the slab.
pub open spec fn operands_in_slab(f: Fabric) -> bool {
    forall|i: int, k: int| #[trigger] cell_at(f, i) is Some && 0 <= k < cell_at(f, i)->0.operands.len()
        ==> (#[trigger] cell_at(f, i)->0.operands[k]).0 < f.slab@.len()
}

/// What the fold loop keeps: well formed, foldable only on integers,
/// and every change to the cells of `f` recorded in `edits`.
pub open spec fn fold_inv(f: Fabric, g: Fabric, edits: Seq<Edit>) -> bool {
    &&& g.wf()
    &&& binary_cells(g)
    &&& no_float_consts(g)
    &&& operands_in_slab(g)
    &&& g.slab@.len() >= f.slab@.len()
    &&& g.regions@.len() == f.regions@.len()
    &&& forall|i: int| #[trigger] cell_at(f, i) is Some && cell_at(g, i) is None ==> ledgered_in(edits, CellId(i as u32))
    &&& forall|i: int| #[trigger] cell_at(g, i) is Some && cell_at(f, i) is None ==> added_in(edits, CellId(i as u32))
    &&& forall|k: int| 0 <= k < edits.len() ==> !(#[trigger] edits[k] matches Edit::RemoveCell { ledger, .. } && all_ws(
        ledger@,
    ))
}

/// The message when the sweeps do not settle.
pub open spec fn guard_message() -> Seq<char> {
    "constfold exceeded fixpoint guard (10k sweeps)"@
}

/// The message when no cell id is left for a folded constant.
pub open spec fn exhausted_message() -> Seq<char> {
    "constfold: cell ids exhausted"@
}

/// Cell `i` is present and is an arith or compare cell.
pub open spec fn is_binary_at(f: Fabric, i: int) -> bool {
    cell_at(f, i) is Some && (cell_at(f, i)->0.kind is Arith || cell_at(f, i)->0.kind is Cmp)
}

/// The number of arith and compare cells among the ids below `n`.
pub open spec fn binary_below(f: Fabric, n: int) -> nat
    decreases n,
{
    if n <= 0 {
        0
    } else {
        binary_below(f, n - 1) + if is_binary_at(f, n - 1) { 1nat } else { 0nat }
    }
}

/// The number of arith and compare cells of `f`: an upper bound on the
/// folds, since each fold removes one of them and adds a constant.
pub open spec fn binary_count(f: Fabric) -> nat {
    binary_below(f, f.slab@.len() as int)
}

/// Folding is owed: fewer than ten thousand cells can fold (so the sweeps
/// settle within the guard), and an id is left for every constant.
pub open spec fn fold_owed(f: Fabric) -> bool {
    &&& binary_count(f) < 10000
    &&& f.slab@.len() + binary_count(f) < 4294967295
}

proof fn lemma_binary_same(a: Fabric, b: Fabric, n: int)
    requires
        forall|i: int| 0 <= i < n ==> #[trigger] is_binary_at(a, i) == is_binary_at(b, i),
    ensures
        binary_below(a, n) == binary_below(b, n),
    decreases n,
{
    if n > 0 {
        lemma_binary_same(a, b, n - 1);
    }
}

proof fn lemma_binary_drop(a: Fabric, b: Fabric, n: int, x: int)
    requires
        0 <= x < n,
        is_binary_at(a, x),
        !is_binary_at(b, x),
        forall|i: int| 0 <= i < n && i != x ==> #[trigger] is_binary_at(a, i) == is_binary_at(b, i),
    ensures
        binary_below(b, n) + 1 == binary_below(a, n),
    decreases n,
{
    if n - 1 == x {
        lemma_binary_same(a, b, n - 1);
    } else {
        lemma_binary_drop(a, b, n - 1, x);
    }
}

proof fn lemma_binary_pos(a: Fabric, n: int, x: int)
    requires
        0 <= x < n,
        is_binary_at(a, x),
    ensures
        binary_below(a, n) >= 1,
    decreases n,
{
    if n - 1 != x {
        lemma_binary_pos(a, n - 1, x);
    }
}

proof fn lemma_binary_bound(a: Fabric, n: int)
    requires
        n >= 0,
    ensures
        binary_below(a, n) <= n,
    decreases n,
{
    if n > 0 {
        lemma_binary_bound(a, n - 1);
    }
}

/// The constant cell holding `v` in region `r`.
pub open spec fn const_cell(r: RegionId, v: ConstVal) -> CellV {
    CellV { region: r, kind: KindV::Const { ty: const_ty(v), val: v }, operands: Seq::empty() }
}

/// What cell `x` of `f` evaluates to through arith and compare cells down
/// to constants, following at most `d` levels of operands.
pub open spec fn static_value(f: Fabric, x: int, d: nat) -> Option<ConstVal>
    decreases d,
{
    match cell_at(f, x) {
        Some(c) => match c.kind {
            KindV::Const { val, .. } => Some(val),
            KindV::Arith { op, .. } => if d == 0 || c.operands.len() < 2 {
                None
            } else {
                match (
                    static_value(f, c.operands[0].0 as int, (d - 1) as nat),
                    static_value(f, c.operands[1].0 as int, (d - 1) as nat),
                ) {
                    (Some(a), Some(b)) => arith_value(op, a, b),
                    _ => None,
                }
            },
            KindV::Cmp { op } => if d == 0 || c.operands.len() < 2 {
                None
            } else {
                match (
                    static_value(f, c.operands[0].0 as int, (d - 1) as nat),
                    static_value(f, c.operands[1].0 as int, (d - 1) as nat),
                ) {
                    (Some(a), Some(b)) => match compare_value(op, a, b) {
                        Some(x) => Some(ConstVal::I1(x)),
                        None => None,
                    },
                    _ => None,
                }
            },
            _ => None,
        },
        None => None,
    }
}

/// A value found within `d` levels stays the value at every greater depth.
pub proof fn lemma_static_mono(f: Fabric, x: int, d: nat, e: nat)
    requires
        d <= e,
        static_value(f, x, d) is Some,
    ensures
        static_value(f, x, e) == static_value(f, x, d),
    decreases d,
{
    let c = cell_at(f, x)->0;
    if d > 0 && c.operands.len() >= 2 && (c.kind is Arith || c.kind is Cmp) {
        let a = c.operands[0].0 as int;
        let b = c.operands[1].0 as int;
        lemma_static_mono(f, a, (d - 1) as nat, (e - 1) as nat);
        lemma_static_mono(f, b, (d - 1) as nat, (e - 1) as nat);
    }
}

/// Folding an arith cell whose operands are the `i32` constants `x`
/// (first operand) and `y` (second) gives the checked integer result of
/// `x` and `y` in that order: the sum, the difference `x - y`, the
/// product, or the quotient truncated toward zero; nothing when the
/// result leaves `i32` or the divisor is zero.
pub proof fn lemma_fold_arith_i32(f: Fabric, c: CellV, x: i32, y: i32)
    requires
        c.kind is Arith,
        const_of(f, c.operands[0]) == Some(ConstVal::I32(x)),
        const_of(f, c.operands[1]) == Some(ConstVal::I32(y)),
    ensures
        ({
            let op = c.kind->Arith_op;
            let r = fold_value(f, c);
            &&& op is Add ==> r == (if i32::MIN <= x + y <= i32::MAX { Some(ConstVal::I32((x + y) as i32)) } else { None })
            &&& op is Sub ==> r == (if i32::MIN <= x - y <= i32::MAX { Some(ConstVal::I32((x - y) as i32)) } else { None })
            &&& op is Mul ==> r == (if i32::MIN <= x * y <= i32::MAX { Some(ConstVal::I32((x * y) as i32)) } else { None })
            &&& op is Div ==> (y == 0 ==> r is None)
            &&& op is Div && 0 <= x && 0 < y ==> r == Some(ConstVal::I32((x / y) as i32))
            &&& op is Div && x < 0 && 0 < y ==> r == Some(ConstVal::I32((-((-(x as int)) / (y as int))) as i32))
            &&& op is Div && 0 <= x && y < 0 ==> r == Some(ConstVal::I32((-((x as int) / (-(y as int)))) as i32))
            &&& op is Div && x < 0 && y < 0 ==> r == (if x == i32::MIN && y == -1 { None } else { Some(
                ConstVal::I32(((-(x as int)) / (-(y as int))) as i32),
            ) })
        }),
{
    let a = x as int;
    let b = y as int;
    if b < 0 {
        if a >= 0 {
            assert(0 <= a / (-b) <= a) by (nonlinear_arith)
                requires
                    a >= 0,
                    -b >= 1,
            ;
        } else {
            assert(0 <= (-a) / (-b) <= -a) by (nonlinear_arith)
                requires
                    -a >= 0,
                    -b >= 1,
            ;
            if b < -1 {
                assert(((-a) / (-b)) * 2 <= -a) by (nonlinear_arith)
                    requires
                        -a >= 0,
                        -b >= 2,
                ;
            } else {
                assert((-a) / 1 == -a);
            }
        }
    }
}

/// Folding an arith cell whose operands are the `i64` constants `x`
/// (first operand) and `y` (second): as for `i32`, in `i64`.
pub proof fn lemma_fold_arith_i64(f: Fabric, c: CellV, x: i64, y: i64)
    requires
        c.kind is Arith,
        const_of(f, c.operands[0]) == Some(ConstVal::I64(x)),
        const_of(f, c.operands[1]) == Some(ConstVal::I64(y)),
    ensures
        ({
            let op = c.kind->Arith_op;
            let r = fold_value(f, c);
            &&& op is Add ==> r == (if i64::MIN <= x + y <= i64::MAX { Some(ConstVal::I64((x + y) as i64)) } else { None })
            &&& op is Sub ==> r == (if i64::MIN <= x - y <= i64::MAX { Some(ConstVal::I64((x - y) as i64)) } else { None })
            &&& op is Mul ==> r == (if i64::MIN <= x * y <= i64::MAX { Some(ConstVal::I64((x * y) as i64)) } else { None })
            &&& op is Div ==> (y == 0 ==> r is None)
            &&& op is Div && 0 <= x && 0 < y ==> r == Some(ConstVal::I64((x / y) as i64))
            &&& op is Div && x < 0 && 0 < y ==> r == Some(ConstVal::I64((-((-(x as int)) / (y as int))) as i64))
            &&& op is Div && 0 <= x && y < 0 ==> r == Some(ConstVal::I64((-((x as int) / (-(y as int)))) as i64))
            &&& op is Div && x < 0 && y < 0 ==> r == (if x == i64::MIN && y == -1 { None } else { Some(
                ConstVal::I64(((-(x as int)) / (-(y as int))) as i64),
            ) })
        }),
{
    let a = x as int;
    let b = y as int;
    if b < 0 {
        if a >= 0 {
            assert(0 <= a / (-b) <= a) by (nonlinear_arith)
                requires
                    a >= 0,
                    -b >= 1,
            ;
        } else {
            assert(0 <= (-a) / (-b) <= -a) by (nonlinear_arith)
                requires
                    -a >= 0,
                    -b >= 1,
            ;
            if b < -1 {
                assert(((-a) / (-b)) * 2 <= -a) by (nonlinear_arith)
                    requires
                        -a >= 0,
                        -b >= 2,
                ;
            } else {
                assert((-a) / 1 == -a);
            }
        }
    }
}

/// Folding agrees with evaluation: for an arith or compare cell whose two
/// operands are constants, the folded value is its dataflow value and its
/// static value.
pub proof fn lemma_fold_agrees(f: Fabric, root: CellId, depth: int, d: nat)
    requires
        0 <= depth < EVAL_DEPTH_LIMIT,
        d >= 1,
        cell_at(f, root.0 as int) is Some,
        cell_at(f, root.0 as int)->0.kind is Arith || cell_at(f, root.0 as int)->0.kind is Cmp,
        cell_at(f, root.0 as int)->0.operands.len() >= 2,
        const_of(f, cell_at(f, root.0 as int)->0.operands[0]) is Some,
        const_of(f, cell_at(f, root.0 as int)->0.operands[1]) is Some,
    ensures
        df_eval(f, root, depth) == fold_value(f, cell_at(f, root.0 as int)->0),
        static_value(f, root.0 as int, d) == fold_value(f, cell_at(f, root.0 as int)->0),
{
    let c = cell_at(f, root.0 as int)->0;
    let (a, b) = (c.operands[0], c.operands[1]);
    assert(df_eval(f, a, depth + 1) == const_of(f, a));
    assert(df_eval(f, b, depth + 1) == const_of(f, b));
    assert(static_value(f, a.0 as int, (d - 1) as nat) == const_of(f, a));
    assert(static_value(f, b.0 as int, (d - 1) as nat) == const_of(f, b));
}

/// Cell `i` of `f`, present in `g`, kept its kind and region, and each of
/// its operands is the original one or the constant the original folded
/// into.
pub open spec fn kept_cell(f: Fabric, g: Fabric, tgt: Map<int, int>, i: int) -> bool {
    let c = cell_at(f, i)->0;
    let d = cell_at(g, i)->0;
    &&& cell_at(f, i) is Some
    &&& d.kind == c.kind
    &&& d.region == c.region
    &&& d.operands.len() == c.operands.len()
    &&& forall|s: int| 0 <= s < c.operands.len() ==> #[trigger] d.operands[s] == c.operands[s] || (tgt.dom().contains(
        c.operands[s].0 as int,
    ) && d.operands[s].0 == tgt[c.operands[s].0 as int])
}

/// Cell `x` of `f` is gone from `g`, folded into the constant `n` of `g`,
/// a new cell in the region of `x` holding what `x` evaluates to within
/// `k` levels.
pub open spec fn folded_to(f: Fabric, g: Fabric, x: int, n: int, k: nat) -> bool {
    &&& 0 <= x < f.slab@.len()
    &&& cell_at(f, x) is Some
    &&& cell_at(g, x) is None
    &&& f.slab@.len() <= n < g.slab@.len()
    &&& static_value(f, x, k) is Some
    &&& cell_at(g, n) == Some(const_cell(cell_at(f, x)->0.region, static_value(f, x, k)->0))
}

/// How the fold loop's fabric `g` stands to the input `f`, with `tgt`
/// mapping each folded cell to its constant after `k` folds.
pub open spec fn fold_track(f: Fabric, g: Fabric, tgt: Map<int, int>, k: nat) -> bool {
    &&& forall|i: int| 0 <= i < f.slab@.len() && #[trigger] cell_at(g, i) is Some ==> kept_cell(f, g, tgt, i)
    &&& forall|i: int| f.slab@.len() <= i && #[trigger] cell_at(g, i) is Some ==> cell_at(g, i)->0.kind is Const
        && cell_at(g, i)->0.operands.len() == 0
    &&& forall|x: int| #[trigger] tgt.dom().contains(x) ==> folded_to(f, g, x, tgt[x], k)
    &&& forall|u: int, s: int| #[trigger] cell_at(g, u) is Some && 0 <= s < cell_at(g, u)->0.operands.len()
        ==> !tgt.dom().contains((#[trigger] cell_at(g, u)->0.operands[s]).0 as int)
}

/// `ledger` reads `folded into %n`.
pub open spec fn ledger_names(ledger: Seq<char>, n: int) -> bool {
    &&& 0 <= n <= u32::MAX
    &&& ledger == "folded into "@ + cell_id_text(CellId(n as u32))
}

/// Every removal in `edits` is of a folded cell, its ledger naming the
/// constant it folded into.
pub open spec fn ledgers_name(edits: Seq<Edit>, tgt: Map<int, int>) -> bool {
    forall|j: int| 0 <= j < edits.len() && (#[trigger] edits[j]) is RemoveCell ==> tgt.dom().contains(
        edits[j]->RemoveCell_id.0 as int,
    ) && ledger_names(edits[j]->RemoveCell_ledger@, tgt[edits[j]->RemoveCell_id.0 as int])
}

/// Id `id` after the folds of `tgt`: the constant it folded into, if it
/// was folded.
pub open spec fn resolved(tgt: Map<int, int>, id: CellId) -> CellId {
    if tgt.dom().contains(id.0 as int) {
        CellId(tgt[id.0 as int] as u32)
    } else {
        id
    }
}

/// Every region of `g` lists the cells of the same region of `f`, each
/// folded cell replaced in its place by its constant.
pub open spec fn lists_follow(f: Fabric, g: Fabric, tgt: Map<int, int>) -> bool {
    &&& g.regions@.len() == f.regions@.len()
    &&& forall|r: int| 0 <= r < f.regions@.len() ==> (#[trigger] g.regions@[r]).cells@ == f.regions@[r].cells@.map_values(
        |id: CellId| resolved(tgt, id),
    )
}

/// The constant that the ledgers of `edits` name for a removed `x`, or
/// `x` itself.
pub open spec fn fold_target(edits: Seq<Edit>, x: CellId) -> CellId {
    if exists|j: int, n: int| 0 <= j < edits.len() && #[trigger] edits[j] is RemoveCell && edits[j]->RemoveCell_id == x
        && #[trigger] ledger_names(edits[j]->RemoveCell_ledger@, n) {
        let (j, n) = choose|j: int, n: int| 0 <= j < edits.len() && #[trigger] edits[j] is RemoveCell && edits[j]->RemoveCell_id == x
            && #[trigger] ledger_names(edits[j]->RemoveCell_ledger@, n);
        CellId(n as u32)
    } else {
        x
    }
}

/// Every region of `g` lists the cells of the same region of `f`, each
/// cell folded by `edits` replaced in its place by the constant its
/// ledger names.
pub open spec fn lists_folded(f: Fabric, g: Fabric, edits: Seq<Edit>) -> bool {
    &&& g.regions@.len() == f.regions@.len()
    &&& forall|r: int| 0 <= r < f.regions@.len() ==> (#[trigger] g.regions@[r]).cells@ == f.regions@[r].cells@.map_values(
        |id: CellId| fold_target(edits, id),
    )
}

proof fn lemma_ledger_names_unique(l: Seq<char>, n1: int, n2: int)
    requires
        ledger_names(l, n1),
        ledger_names(l, n2),
    ensures
        n1 == n2,
{
    let p = "folded into "@;
    let d1 = crate::dec::dec(n1 as nat);
    let d2 = crate::dec::dec(n2 as nat);
    assert(l == p + (seq!['%'] + d1));
    assert(l == p + (seq!['%'] + d2));
    assert(d1 =~= l.subrange((p.len() + 1) as int, l.len() as int));
    assert(d2 =~= l.subrange((p.len() + 1) as int, l.len() as int));
    crate::dec::lemma_parse_dec(n1 as nat, u32::MAX as nat);
    crate::dec::lemma_parse_dec(n2 as nat, u32::MAX as nat);
}

/// Every folded cell of `tgt` has a removal in `edits`.
pub open spec fn removed_all(edits: Seq<Edit>, tgt: Map<int, int>) -> bool {
    forall|x: int| #[trigger] tgt.dom().contains(x) ==> exists|j: int| 0 <= j < edits.len() && #[trigger] edits[j] is RemoveCell
        && edits[j]->RemoveCell_id.0 == x
}

proof fn lemma_lists_folded(f: Fabric, g: Fabric, tgt: Map<int, int>, edits: Seq<Edit>, k: nat)
    requires
        lists_follow(f, g, tgt),
        ledgers_name(edits, tgt),
        fold_track(f, g, tgt, k),
        removed_all(edits, tgt),
        g.slab@.len() <= u32::MAX,
    ensures
        lists_folded(f, g, edits),
{
    assert forall|id: CellId| #[trigger] fold_target(edits, id) == resolved(tgt, id) by {
        let x = id.0 as int;
        if tgt.dom().contains(x) {
            let j = choose|j: int| 0 <= j < edits.len() && #[trigger] edits[j] is RemoveCell && edits[j]->RemoveCell_id.0 == x;
            assert(edits[j]->RemoveCell_id == id);
            assert(ledger_names(edits[j]->RemoveCell_ledger@, tgt[x]));
            let (j2, n2) = choose|j: int, n: int| 0 <= j < edits.len() && #[trigger] edits[j] is RemoveCell && edits[j]->RemoveCell_id == id
                && #[trigger] ledger_names(edits[j]->RemoveCell_ledger@, n);
            assert(ledger_names(edits[j2]->RemoveCell_ledger@, tgt[x]));
            lemma_ledger_names_unique(edits[j2]->RemoveCell_ledger@, n2, tgt[x]);
        } else {
            if exists|j: int, n: int| 0 <= j < edits.len() && #[trigger] edits[j] is RemoveCell && edits[j]->RemoveCell_id == id
                && #[trigger] ledger_names(edits[j]->RemoveCell_ledger@, n) {
                let (j, n) = choose|j: int, n: int| 0 <= j < edits.len() && #[trigger] edits[j] is RemoveCell && edits[j]->RemoveCell_id == id
                    && #[trigger] ledger_names(edits[j]->RemoveCell_ledger@, n);
                assert(tgt.dom().contains(edits[j]->RemoveCell_id.0 as int));
            }
        }
    }
    assert forall|r: int| 0 <= r < f.regions@.len() implies (#[trigger] g.regions@[r]).cells@ == f.regions@[r].cells@.map_values(
        |id: CellId| fold_target(edits, id),
    ) by {
        assert(g.regions@[r].cells@ =~= f.regions@[r].cells@.map_values(|id: CellId| fold_target(edits, id)));
    }
}

/// Constants are numbered in fold order: the removal that is the `q`-th
/// of `edits` names the constant with id `f`'s slab length plus `q`.
pub open spec fn ids_in_fold_order(f: Fabric, edits: Seq<Edit>) -> bool {
    forall|j: int| 0 <= j < edits.len() && (#[trigger] edits[j]) is RemoveCell ==> ledger_names(
        edits[j]->RemoveCell_ledger@,
        (f.slab@.len() + count_removes(edits, j)) as int,
    )
}

proof fn lemma_removes_prefix(s: Seq<Edit>, t: Seq<Edit>, j: int)
    requires
        0 <= j <= s.len() <= t.len(),
        forall|i: int| 0 <= i < s.len() ==> #[trigger] t[i] == s[i],
    ensures
        count_removes(t, j) == count_removes(s, j),
    decreases j,
{
    if j > 0 {
        lemma_removes_prefix(s, t, j - 1);
    }
}

proof fn lemma_removes_none(t: Seq<Edit>, a: int, b: int)
    requires
        0 <= a <= b <= t.len(),
        forall|i: int| a <= i < b ==> !(#[trigger] t[i] is RemoveCell),
    ensures
        count_removes(t, b) == count_removes(t, a),
    decreases b - a,
{
    if b > a {
        lemma_removes_none(t, a, b - 1);
    }
}

/// Every use of `x` in `f` by a cell that survives in `g` names `n` in `g`.
pub open spec fn users_moved(f: Fabric, g: Fabric, x: int, n: int) -> bool {
    forall|u: int, s: int| 0 <= u < f.slab@.len() && #[trigger] cell_at(g, u) is Some && 0 <= s < cell_at(
        f,
        u,
    )->0.operands.len() && (#[trigger] cell_at(f, u)->0.operands[s]).0 == x ==> cell_at(g, u)->0.operands[s].0 == n
}

/// The removal of `x` with `ledger`: `x` folded into the constant `n`
/// that the ledger names, holding what `x` evaluates to in `f`, and every
/// surviving use of `x` now names `n`.
pub open spec fn fold_entry(f: Fabric, g: Fabric, x: int, ledger: Seq<char>) -> bool {
    exists|n: int| #[trigger] ledger_names(ledger, n) && folded_to(f, g, x, n, f.slab@.len() as nat) && users_moved(
        f,
        g,
        x,
        n,
    )
}

/// Every removal that constant folding records is exact: see `fold_entry`.
pub open spec fn folds_exact(f: Fabric, g: Fabric, edits: Seq<Edit>) -> bool {
    forall|j: int| 0 <= j < edits.len() && (#[trigger] edits[j]) is RemoveCell ==> fold_entry(
        f,
        g,
        edits[j]->RemoveCell_id.0 as int,
        edits[j]->RemoveCell_ledger@,
    )
}

/// The folded value of a cell of the loop's fabric is what the cell
/// evaluates to in the input, one level deeper than the folds so far.
proof fn lemma_fold_static(f: Fabric, g: Fabric, tgt: Map<int, int>, k: nat, x: int, val: ConstVal)
    requires
        fold_track(f, g, tgt, k),
        operands_in_slab(f),
        binary_cells(g),
        cell_at(g, x) is Some,
        fold_value(g, cell_at(g, x)->0) == Some(val),
    ensures
        0 <= x < f.slab@.len(),
        kept_cell(f, g, tgt, x),
        static_value(f, x, k + 1) == Some(val),
{
    let c = cell_at(g, x)->0;
    assert(c.kind is Arith || c.kind is Cmp);
    if x >= f.slab@.len() {
        assert(c.kind is Const);
    }
    assert(kept_cell(f, g, tgt, x));
    let fc = cell_at(f, x)->0;
    assert(fc.operands.len() >= 2);
    assert forall|s: int| 0 <= s < 2 implies static_value(f, fc.operands[s].0 as int, k) == const_of(g, c.operands[s]) by {
        let o = fc.operands[s].0 as int;
        assert(c.operands[s] == fc.operands[s] || (tgt.dom().contains(o) && c.operands[s].0 == tgt[o]));
        assert(const_of(g, c.operands[s]) is Some);
        if c.operands[s] == fc.operands[s] {
            assert(o < f.slab@.len());
            assert(cell_at(g, o) is Some);
            assert(kept_cell(f, g, tgt, o));
        } else {
            assert(folded_to(f, g, o, tgt[o], k));
        }
    }
}

proof fn lemma_push_keeps(old_e: Seq<Edit>, new_e: Seq<Edit>, e: Edit)
    requires
        new_e == old_e.push(e),
    ensures
        forall|x: CellId| ledgered_in(old_e, x) ==> ledgered_in(new_e, x),
        forall|x: CellId| added_in(old_e, x) ==> added_in(new_e, x),
{
    assert forall|x: CellId| ledgered_in(old_e, x) implies ledgered_in(new_e, x) by {
        let k = choose|k: int| 0 <= k < old_e.len() && (#[trigger] old_e[k] matches Edit::RemoveCell { id: i, ledger, .. }
            && i == x && !all_ws(ledger@));
        assert(new_e[k] == old_e[k]);
    }
    assert forall|x: CellId| added_in(old_e, x) implies added_in(new_e, x) by {
        let k = choose|k: int| 0 <= k < old_e.len() && (#[trigger] old_e[k] matches Edit::AddCell { id: i, .. } && i == x);
        assert(new_e[k] == old_e[k]);
    }
}

fn const_val(f: &Fabric, id: CellId) -> (r: Option<ConstVal>)
    ensures
        r == const_of(*f, id),
{
    match f.cell(id) {
        Some(c) => match &c.kind {
            CellKind::Const { val, .. } => Some(*val),
            _ => None,
        },
        None => None,
    }
}

fn fold_compare(op: CmpOp, a: ConstVal, b: ConstVal) -> (r: Option<ConstVal>)
    requires
        !float_pair(Some(a), Some(b)),
    ensures
        r == match compare_value(op, a, b) {
            Some(x) => Some(ConstVal::I1(x)),
            None => None,
        },
{
    eval_cmp(op, a, b)
}

/// The folded value of a present cell, computed.
fn fold_of(g: &Fabric, id: CellId) -> (r: Option<ConstVal>)
    requires
        binary_cells(*g),
        no_float_consts(*g),
    ensures
        r == (if cell_at(*g, id.0 as int) is Some { fold_value(*g, cell_at(*g, id.0 as int)->0) } else { None }),
{
    let c = match g.cell(id) {
        Some(c) => c,
        None => return None,
    };
    assert(cell_at(*g, id.0 as int) is Some);
    match &c.kind {
        CellKind::Arith { op, .. } => {
            let a = match const_val(g, c.operands[0]) { Some(a) => a, None => return None };
            let b = match const_val(g, c.operands[1]) { Some(b) => b, None => return None };
            proof { assert(!(a is F64)); }
            eval_arith(*op, a, b)
        },
        CellKind::Cmp { op } => {
            let a = match const_val(g, c.operands[0]) { Some(a) => a, None => return None };
            let b = match const_val(g, c.operands[1]) { Some(b) => b, None => return None };
            proof { assert(!(a is F64)); }
            fold_compare(*op, a, b)
        },
        _ => None,
    }
}


proof fn lemma_lists_step(
    f: Fabric,
    g0: Fabric,
    g_pre: Fabric,
    ga: Fabric,
    tgt: Map<int, int>,
    k: nat,
    id: CellId,
    new_id: CellId,
    rx: int,
    p: int,
)
    requires
        f.wf(),
        lists_follow(f, g0, tgt),
        fold_track(f, g0, tgt, k),
        0 <= rx < f.regions@.len(),
        cell_at(f, id.0 as int) is Some,
        cell_at(f, id.0 as int)->0.region.0 == rx,
        cell_at(g0, id.0 as int) is Some,
        g0.slab@.len() <= u32::MAX,
        (id.0 as int) < f.slab@.len(),
        f.slab@.len() <= new_id.0,
        0 <= p < g0.regions@[rx].cells@.len(),
        g0.regions@[rx].cells@[p] == id,
        forall|qq: int| 0 <= qq < p ==> g0.regions@[rx].cells@[qq] != id,
        g_pre.regions@.len() == g0.regions@.len(),
        forall|r: int| 0 <= r < g0.regions@.len() && r != rx ==> #[trigger] g_pre.regions@[r] == g0.regions@[r],
        g_pre.regions@[rx].cells@ == g0.regions@[rx].cells@.insert(p, new_id),
        ga.regions@.len() == g_pre.regions@.len(),
        forall|r: int| 0 <= r < g_pre.regions@.len() && r != rx ==> #[trigger] ga.regions@[r] == g_pre.regions@[r],
        exists|p2: int| 0 <= p2 < g_pre.regions@[rx].cells@.len() && g_pre.regions@[rx].cells@[p2] == id && (forall|qq: int| 0 <= qq < p2
            ==> g_pre.regions@[rx].cells@[qq] != id) && ga.regions@[rx].cells@ == g_pre.regions@[rx].cells@.remove(p2),
    ensures
        lists_follow(f, ga, tgt.insert(id.0 as int, new_id.0 as int)),
{
    let xi = id.0 as int;
    let ni = new_id.0 as int;
    let t2 = tgt.insert(xi, ni);
    let fl = f.regions@[rx].cells@;
    let l0 = g0.regions@[rx].cells@;
    assert(l0 == fl.map_values(|cid: CellId| resolved(tgt, cid)));
    assert(!tgt.dom().contains(xi)) by {
        if tgt.dom().contains(xi) {
            assert(folded_to(f, g0, xi, tgt[xi], k));
        }
    }
    assert(fl.len() == l0.len());
    assert(fl[p] == id) by {
        if fl[p] != id {
            assert(l0[p] == resolved(tgt, fl[p]));
            assert(tgt.dom().contains(fl[p].0 as int));
            assert(folded_to(f, g0, fl[p].0 as int, tgt[fl[p].0 as int], k));
            assert(tgt[fl[p].0 as int] < g0.slab@.len());
            assert((tgt[fl[p].0 as int] as u32) as int == tgt[fl[p].0 as int]);
        }
    }
    let m1 = g_pre.regions@[rx].cells@;
    let p2 = choose|p2: int| 0 <= p2 < m1.len() && m1[p2] == id && (forall|qq: int| 0 <= qq < p2 ==> m1[qq] != id)
        && ga.regions@[rx].cells@ == m1.remove(p2);
    assert(m1[p + 1] == id);
    if p2 != p + 1 {
        if p2 < p {
            assert(m1[p2] == l0[p2]);
        } else if p2 == p {
            assert(m1[p2] == new_id);
            assert(new_id != id);
        }
    }
    assert forall|kk: int| 0 <= kk < fl.len() implies #[trigger] ga.regions@[rx].cells@[kk] == resolved(t2, fl[kk]) by {
        if kk != p {
            assert(fl[kk] != fl[p]);
            if kk < p {
                assert(ga.regions@[rx].cells@[kk] == m1[kk]);
            } else {
                assert(ga.regions@[rx].cells@[kk] == m1[kk + 1]);
            }
        } else {
            assert(ga.regions@[rx].cells@[kk] == m1[p]);
        }
    }
    assert(ga.regions@[rx].cells@ =~= fl.map_values(|cid: CellId| resolved(t2, cid)));
    assert forall|r: int| 0 <= r < f.regions@.len() implies (#[trigger] ga.regions@[r]).cells@ == f.regions@[r].cells@.map_values(
        |cid: CellId| resolved(t2, cid),
    ) by {
        if r != rx {
            assert(ga.regions@[r] == g_pre.regions@[r]);
            assert(g_pre.regions@[r] == g0.regions@[r]);
            assert forall|kk: int| 0 <= kk < f.regions@[r].cells@.len() implies #[trigger] resolved(t2, f.regions@[r].cells@[kk]) == resolved(
                tgt,
                f.regions@[r].cells@[kk],
            ) by {
                if f.regions@[r].cells@[kk] == id {
                    assert(cell_at(f, xi)->0.region.0 == r);
                }
            }
            assert(ga.regions@[r].cells@ =~= f.regions@[r].cells@.map_values(|cid: CellId| resolved(t2, cid)));
        }
    }
}

/// The fold loop's fabric while the uses of `x` move to its constant `n`:
/// `fold_track` with `x` already counted as folded into `n` in the kept
/// cells, and the folds of `tgt` seen at depth `k`.
spec fn mid_track(f: Fabric, g: Fabric, tgt: Map<int, int>, k: nat, x: int, n: int) -> bool {
    &&& forall|i: int| 0 <= i < f.slab@.len() && #[trigger] cell_at(g, i) is Some ==> kept_cell(f, g, tgt.insert(x, n), i)
    &&& forall|i: int| f.slab@.len() <= i && #[trigger] cell_at(g, i) is Some ==> cell_at(g, i)->0.kind is Const
        && cell_at(g, i)->0.operands.len() == 0
    &&& forall|y: int| #[trigger] tgt.dom().contains(y) ==> folded_to(f, g, y, tgt[y], k)
    &&& forall|u: int, s: int| #[trigger] cell_at(g, u) is Some && 0 <= s < cell_at(g, u)->0.operands.len()
        ==> !tgt.dom().contains((#[trigger] cell_at(g, u)->0.operands[s]).0 as int)
}

/// Entry `w` of the users list still to do: a use in `g` of `x` (or, for
/// a repeated entry, already moved to `n`) by a cell of `f` whose operand
/// there is `x`.
spec fn pending_use(f: Fabric, g: Fabric, x: int, n: int, w: (CellId, u32)) -> bool {
    let u = w.0.0 as int;
    let s = w.1 as int;
    &&& 0 <= u < f.slab@.len()
    &&& cell_at(g, u) is Some
    &&& s < cell_at(g, u)->0.operands.len()
    &&& (cell_at(g, u)->0.operands[s].0 == x || cell_at(g, u)->0.operands[s].0 == n)
    &&& cell_at(f, u) is Some
    &&& s < cell_at(f, u)->0.operands.len()
    &&& cell_at(f, u)->0.operands[s].0 == x
}

/// Move every use of `x` listed in `users` to `n`, recording each move.
fn move_uses(
    f: &Fabric,
    g: &mut Fabric,
    rec: &mut DiffRecord,
    x: CellId,
    n: CellId,
    users: &Vec<(CellId, u32)>,
    Ghost(tgt): Ghost<Map<int, int>>,
    Ghost(k): Ghost<nat>,
)
    requires
        fold_inv(*f, *old(g), old(rec).edits@),
        mid_track(*f, *old(g), tgt, k, x.0 as int, n.0 as int),
        (x.0 as int) < f.slab@.len(),
        f.slab@.len() <= n.0 < old(g).slab@.len(),
        cell_at(*old(g), x.0 as int) is Some,
        forall|j: int| 0 <= j < users@.len() ==> is_use_of(*old(g), x.0 as int, #[trigger] users@[j]),
        forall|w: (CellId, u32)| #[trigger] is_use_of(*old(g), x.0 as int, w) ==> users@.contains(w),
    ensures
        fold_inv(*f, *final(g), final(rec).edits@),
        mid_track(*f, *final(g), tgt, k, x.0 as int, n.0 as int),
        final(g).slab@.len() == old(g).slab@.len(),
        final(g).regions == old(g).regions,
        forall|i: int| #[trigger] is_binary_at(*final(g), i) == is_binary_at(*old(g), i),
        cell_at(*final(g), x.0 as int) is Some,
        cell_at(*final(g), n.0 as int) == cell_at(*old(g), n.0 as int),
        forall|w: (CellId, u32)| !#[trigger] is_use_of(*final(g), x.0 as int, w),
        final(rec).edits@.len() >= old(rec).edits@.len(),
        forall|j: int| 0 <= j < old(rec).edits@.len() ==> #[trigger] final(rec).edits@[j] == old(rec).edits@[j],
        forall|j: int| old(rec).edits@.len() <= j < final(rec).edits@.len() ==> (#[trigger] final(rec).edits@[j]) is Retarget,
        final(rec).pass == old(rec).pass,
        final(rec).epoch == old(rec).epoch,
        final(rec).notes == old(rec).notes,
{
    let ghost g_in = *g;
    let ghost e_in = rec.edits@;
    let ghost xi = x.0 as int;
    let ghost ni = n.0 as int;
    proof {
        assert forall|j: int| 0 <= j < users@.len() implies pending_use(*f, *g, xi, ni, #[trigger] users@[j]) by {
            let w = users@[j];
            let u = w.0.0 as int;
            let s = w.1 as int;
            assert(is_use_of(*g, xi, w));
            if u >= f.slab@.len() {
                assert(cell_at(*g, u)->0.operands.len() == 0);
            }
            assert(kept_cell(*f, *g, tgt.insert(xi, ni), u));
            let fo = cell_at(*f, u)->0.operands[s].0 as int;
            if tgt.insert(xi, ni).dom().contains(fo) && cell_at(*g, u)->0.operands[s].0 == tgt.insert(xi, ni)[fo] {
                if fo != xi {
                    assert(folded_to(*f, *g, fo, tgt[fo], k));
                }
            }
        }
    }
    let mut j: usize = 0;
    while j < users.len()
        invariant
            j <= users@.len(),
            fold_inv(*f, *g, rec.edits@),
            mid_track(*f, *g, tgt, k, xi, ni),
            xi == x.0, ni == n.0,
            xi < f.slab@.len(),
            f.slab@.len() <= ni < g.slab@.len(),
            g.slab@.len() == g_in.slab@.len(),
            g.regions == g_in.regions,
            forall|i: int| #[trigger] is_binary_at(*g, i) == is_binary_at(g_in, i),
            cell_at(*g, xi) is Some,
            cell_at(*g, ni) == cell_at(g_in, ni),
            forall|jj: int| j <= jj < users@.len() ==> pending_use(*f, *g, xi, ni, #[trigger] users@[jj]),
            forall|w: (CellId, u32)| #[trigger] is_use_of(*g, xi, w) ==> exists|jj: int| j <= jj < users@.len() && #[trigger] users@[jj] == w,
            rec.edits@.len() >= e_in.len(),
            forall|q: int| 0 <= q < e_in.len() ==> #[trigger] rec.edits@[q] == e_in[q],
            forall|q: int| e_in.len() <= q < rec.edits@.len() ==> (#[trigger] rec.edits@[q]) is Retarget,
            rec.pass == old(rec).pass,
            rec.epoch == old(rec).epoch,
            rec.notes == old(rec).notes,
        decreases users@.len() - j,
    {
        let (u, s) = users[j];
        let ghost gb = *g;
        let ghost eb = rec.edits@;
        proof {
            assert(pending_use(*f, gb, xi, ni, users@[j as int]));
        }
        match g.retarget(u, s, n) {
            Some(from) => {
                rec.edits.push(Edit::Retarget { cell: u, slot: s, from, to: n });
                proof { lemma_push_keeps(eb, rec.edits@, rec.edits@.last()); }
            },
            None => {},
        }
        proof {
            let ga = *g;
            let ui = u.0 as int;
            let si = s as int;
            assert(cell_at(ga, ui) == Some(CellV { operands: cell_at(gb, ui)->0.operands.update(si, n), ..cell_at(gb, ui)->0 }));
            assert forall|i: int| i != ui implies #[trigger] cell_at(ga, i) == cell_at(gb, i) by {}
            assert forall|i: int| #[trigger] cell_at(ga, i) is Some <==> cell_at(gb, i) is Some by {
                if i != ui {
                    assert(cell_at(ga, i) == cell_at(gb, i));
                }
            }
            assert forall|i: int| #[trigger] is_binary_at(ga, i) == is_binary_at(g_in, i) by {
                assert(is_binary_at(gb, i) == is_binary_at(g_in, i));
                if i != ui {
                    assert(cell_at(ga, i) == cell_at(gb, i));
                }
            }
            // fold_inv
            assert forall|i: int| #[trigger] cell_at(*f, i) is Some && cell_at(ga, i) is None implies ledgered_in(
                rec.edits@,
                CellId(i as u32),
            ) by {
                assert(cell_at(gb, i) is None);
            }
            assert forall|i: int| #[trigger] cell_at(ga, i) is Some && cell_at(*f, i) is None implies added_in(
                rec.edits@,
                CellId(i as u32),
            ) by {
                assert(cell_at(gb, i) is Some);
            }
            assert forall|i: int| #[trigger] cell_at(ga, i) is Some implies ((cell_at(ga, i)->0.kind is Arith || cell_at(
                ga,
                i,
            )->0.kind is Cmp) ==> cell_at(ga, i)->0.operands.len() >= 2) by {
                assert(cell_at(gb, i) is Some);
            }
            assert forall|i: int| #[trigger] cell_at(ga, i) is Some implies !(cell_at(ga, i)->0.kind matches KindV::Const { val: ConstVal::F64(_), .. }) by {
                assert(cell_at(gb, i) is Some);
            }
            assert forall|i: int, q: int| #[trigger] cell_at(ga, i) is Some && 0 <= q < cell_at(ga, i)->0.operands.len()
                implies (#[trigger] cell_at(ga, i)->0.operands[q]).0 < ga.slab@.len() by {
                assert(cell_at(gb, i) is Some);
                if i != ui {
                    assert(cell_at(ga, i) == cell_at(gb, i));
                } else if q != si {
                    assert(cell_at(ga, i)->0.operands[q] == cell_at(gb, i)->0.operands[q]);
                }
            }
            assert forall|q: int| 0 <= q < rec.edits@.len() implies !(#[trigger] rec.edits@[q] matches Edit::RemoveCell {
                ledger,
                ..
            } && all_ws(ledger@)) by {
                if q < eb.len() {
                    assert(rec.edits@[q] == eb[q]);
                }
            }
            // mid_track
            let t2 = tgt.insert(xi, ni);
            assert forall|i: int| 0 <= i < f.slab@.len() && #[trigger] cell_at(ga, i) is Some implies kept_cell(*f, ga, t2, i) by {
                assert(kept_cell(*f, gb, t2, i));
                if i == ui {
                    let c = cell_at(*f, i)->0;
                    let d = cell_at(ga, i)->0;
                    assert forall|q: int| 0 <= q < c.operands.len() implies #[trigger] d.operands[q] == c.operands[q] || (t2.dom().contains(
                        c.operands[q].0 as int,
                    ) && d.operands[q].0 == t2[c.operands[q].0 as int]) by {
                        if q != si {
                            assert(d.operands[q] == cell_at(gb, i)->0.operands[q]);
                        }
                    }
                }
            }
            assert forall|i: int| f.slab@.len() <= i && #[trigger] cell_at(ga, i) is Some implies cell_at(ga, i)->0.kind is Const
                && cell_at(ga, i)->0.operands.len() == 0 by {
                assert(cell_at(gb, i) is Some);
            }
            assert forall|y: int| #[trigger] tgt.dom().contains(y) implies folded_to(*f, ga, y, tgt[y], k) by {
                assert(folded_to(*f, gb, y, tgt[y], k));
                assert(cell_at(ga, tgt[y]) == cell_at(gb, tgt[y]));
                assert(cell_at(ga, y) == cell_at(gb, y));
            }
            assert forall|uu: int, q: int| #[trigger] cell_at(ga, uu) is Some && 0 <= q < cell_at(ga, uu)->0.operands.len()
                implies !tgt.dom().contains((#[trigger] cell_at(ga, uu)->0.operands[q]).0 as int) by {
                assert(cell_at(gb, uu) is Some);
                if uu != ui || q != si {
                    assert(cell_at(ga, uu)->0.operands[q] == cell_at(gb, uu)->0.operands[q]);
                } else {
                    if tgt.dom().contains(ni) {
                        assert(folded_to(*f, gb, ni, tgt[ni], k));
                    }
                }
            }
            // the list still to do
            assert forall|jj: int| j + 1 <= jj < users@.len() implies pending_use(*f, ga, xi, ni, #[trigger] users@[jj]) by {
                assert(pending_use(*f, gb, xi, ni, users@[jj]));
                let w = users@[jj];
                if w.0.0 as int == ui && w.1 as int != si {
                    assert(cell_at(ga, ui)->0.operands[w.1 as int] == cell_at(gb, ui)->0.operands[w.1 as int]);
                }
            }
            assert forall|w: (CellId, u32)| #[trigger] is_use_of(ga, xi, w) implies exists|jj: int| j + 1 <= jj < users@.len()
                && #[trigger] users@[jj] == w by {
                if w.0.0 as int == ui && w.1 as int == si {
                    assert(false);
                }
                if w.0.0 as int != ui {
                    assert(cell_at(ga, w.0.0 as int) == cell_at(gb, w.0.0 as int));
                } else {
                    assert(cell_at(ga, ui)->0.operands[w.1 as int] == cell_at(gb, ui)->0.operands[w.1 as int]);
                }
                assert(is_use_of(gb, xi, w));
                let jj = choose|jj: int| j <= jj < users@.len() && #[trigger] users@[jj] == w;
                assert(jj != j);
            }
            assert forall|q: int| e_in.len() <= q < rec.edits@.len() implies (#[trigger] rec.edits@[q]) is Retarget by {
                if q < eb.len() {
                    assert(rec.edits@[q] == eb[q]);
                }
            }
            assert forall|q: int| 0 <= q < e_in.len() implies #[trigger] rec.edits@[q] == e_in[q] by {
                assert(rec.edits@[q] == eb[q]);
            }
        }
        j = j + 1;
    }
}

/// Fold cell `id` (present, folding to `val`) in `g`: a constant at its
/// position, every use retargeted, the cell removed with its ledger.
#[verifier::rlimit(100)]
#[verifier::spinoff_prover]
fn fold_one(
    f: &Fabric,
    g: &mut Fabric,
    rec: &mut DiffRecord,
    id: CellId,
    val: ConstVal,
    Ghost(tgt): Ghost<Map<int, int>>,
    Ghost(k): Ghost<nat>,
) -> (r: Result<(), String>)
    requires
        fold_inv(*f, *old(g), old(rec).edits@),
        fold_track(*f, *old(g), tgt, k),
        ledgers_name(old(rec).edits@, tgt),
        ids_in_fold_order(*f, old(rec).edits@),
        count_removes(old(rec).edits@, old(rec).edits@.len() as int) + f.slab@.len() == old(g).slab@.len(),
        lists_follow(*f, *old(g), tgt),
        removed_all(old(rec).edits@, tgt),
        f.wf(),
        operands_in_slab(*f),
        cell_at(*old(g), id.0 as int) is Some,
        fold_value(*old(g), cell_at(*old(g), id.0 as int)->0) == Some(val),
    ensures
        r is Ok ==> fold_inv(*f, *final(g), final(rec).edits@),
        r is Ok ==> final(g).slab@.len() == old(g).slab@.len() + 1,
        r is Ok ==> binary_count(*final(g)) + 1 == binary_count(*old(g)),
        r is Ok ==> fold_track(*f, *final(g), tgt.insert(id.0 as int, old(g).slab@.len() as int), k + 1),
        r is Ok ==> ledgers_name(final(rec).edits@, tgt.insert(id.0 as int, old(g).slab@.len() as int)),
        r is Ok ==> ids_in_fold_order(*f, final(rec).edits@),
        r is Ok ==> lists_follow(*f, *final(g), tgt.insert(id.0 as int, old(g).slab@.len() as int)),
        r is Ok ==> removed_all(final(rec).edits@, tgt.insert(id.0 as int, old(g).slab@.len() as int)),
        r is Ok ==> count_removes(final(rec).edits@, final(rec).edits@.len() as int) + f.slab@.len() == final(g).slab@.len(),
        r matches Err(e) ==> e@ == exhausted_message() && old(g).slab@.len() >= 4294967294,
        final(rec).pass == old(rec).pass,
        final(rec).epoch == old(rec).epoch,
        final(rec).notes == old(rec).notes,
{
    if g.slab.len() >= 4294967294 {
        let mut e = String::new();
        push_str(&mut e, "constfold: cell ids exhausted");
        return Err(e);
    }
    let ghost g0 = *g;
    let ghost xi = id.0 as int;
    proof {
        lemma_fold_static(*f, g0, tgt, k, xi, val);
    }
    let region = g.cell(id).unwrap().region;
    let index = match g.index_in_region(id) {
        Some(p) => p,
        None => {
            proof {
                assert(g.regions@[region.0 as int].cells@.contains(CellId((id.0 as int) as u32)));
            }
            0
        },
    };
    assert(!(val is F64));
    let ty = val.ty();
    let new_id = g.insert_cell(region, index, Cell::new(region, CellKind::Const { ty, val }));
    let ghost e0 = rec.edits@;
    rec.edits.push(Edit::AddCell { id: new_id, index, cell: Cell::new(region, CellKind::Const { ty, val }) });
    let ghost ni = new_id.0 as int;
    proof {
        lemma_push_keeps(e0, rec.edits@, rec.edits@.last());
        assert(!refers_into(g0, g0.slab@.len() as int, g0.slab@.len() as int + 1));
        let g1 = *g;
        assert forall|i: int| i != g0.slab@.len() implies cell_at(g1, i) == cell_at(g0, i) by {}
        assert(rec.edits@[rec.edits@.len() - 1] matches Edit::AddCell { id: i, .. } && i == new_id);
        assert forall|i: int| #[trigger] cell_at(*f, i) is Some && cell_at(g1, i) is None implies ledgered_in(
            rec.edits@,
            CellId(i as u32),
        ) by {
            assert(cell_at(g1, i) == cell_at(g0, i));
        }
        assert forall|i: int| #[trigger] cell_at(g1, i) is Some && cell_at(*f, i) is None implies added_in(
            rec.edits@,
            CellId(i as u32),
        ) by {
            if i == g0.slab@.len() {
                assert(CellId(i as u32) == new_id);
            }
        }
        assert forall|i: int| #[trigger] cell_at(g1, i) is Some implies ((cell_at(g1, i)->0.kind is Arith || cell_at(
            g1,
            i,
        )->0.kind is Cmp) ==> cell_at(g1, i)->0.operands.len() >= 2) by {}
        assert forall|i: int| #[trigger] cell_at(g1, i) is Some implies !(cell_at(g1, i)->0.kind matches KindV::Const { val: ConstVal::F64(_), .. }) by {}
        assert forall|i: int, q: int| #[trigger] cell_at(g1, i) is Some && 0 <= q < cell_at(g1, i)->0.operands.len()
            implies (#[trigger] cell_at(g1, i)->0.operands[q]).0 < g1.slab@.len() by {}
        assert forall|q: int| 0 <= q < rec.edits@.len() implies !(#[trigger] rec.edits@[q] matches Edit::RemoveCell {
            ledger,
            ..
        } && all_ws(ledger@)) by {
            if q < e0.len() {
                assert(rec.edits@[q] == e0[q]);
            }
        }
        // the constant, and the fabric's standing while uses move
        let cv = cell_at(g1, ni)->0;
        assert(cv.operands =~= Seq::<CellId>::empty());
        assert(cv.kind == KindV::Const { ty: const_ty(val), val });
        assert(cv.region == cell_at(*f, xi)->0.region);
        assert(cell_at(g1, ni) == Some(const_cell(cell_at(*f, xi)->0.region, val)));
        let t2 = tgt.insert(xi, ni);
        assert(!tgt.dom().contains(xi));
        assert forall|i: int| 0 <= i < f.slab@.len() && #[trigger] cell_at(g1, i) is Some implies kept_cell(*f, g1, t2, i) by {
            assert(cell_at(g1, i) == cell_at(g0, i));
            assert(kept_cell(*f, g0, tgt, i));
            let c = cell_at(*f, i)->0;
            let d = cell_at(g1, i)->0;
            assert forall|q: int| 0 <= q < c.operands.len() implies #[trigger] d.operands[q] == c.operands[q] || (t2.dom().contains(
                c.operands[q].0 as int,
            ) && d.operands[q].0 == t2[c.operands[q].0 as int]) by {
                if d.operands[q] != c.operands[q] {
                    assert(tgt.dom().contains(c.operands[q].0 as int));
                }
            }
        }
        assert forall|i: int| f.slab@.len() <= i && #[trigger] cell_at(g1, i) is Some implies cell_at(g1, i)->0.kind is Const
            && cell_at(g1, i)->0.operands.len() == 0 by {
            if i != ni {
                assert(cell_at(g1, i) == cell_at(g0, i));
            }
        }
        assert forall|y: int| #[trigger] tgt.dom().contains(y) implies folded_to(*f, g1, y, tgt[y], k + 1) by {
            assert(folded_to(*f, g0, y, tgt[y], k));
            lemma_static_mono(*f, y, k, k + 1);
            assert(cell_at(g1, tgt[y]) == cell_at(g0, tgt[y]));
            assert(cell_at(g1, y) == cell_at(g0, y));
        }
        assert forall|uu: int, q: int| #[trigger] cell_at(g1, uu) is Some && 0 <= q < cell_at(g1, uu)->0.operands.len()
            implies !tgt.dom().contains((#[trigger] cell_at(g1, uu)->0.operands[q]).0 as int) by {
            assert(cell_at(g1, uu) == cell_at(g0, uu));
        }
        assert(mid_track(*f, g1, tgt, k + 1, xi, ni));
    }
    let ghost g1 = *g;
    proof {
        assert forall|i: int| 0 <= i < g0.slab@.len() implies #[trigger] is_binary_at(g1, i) == is_binary_at(g0, i) by {
            assert(cell_at(g1, i) == cell_at(g0, i));
        }
        lemma_binary_same(g1, g0, g0.slab@.len() as int);
        assert(is_binary_at(g0, id.0 as int));
        assert(!is_binary_at(g1, g0.slab@.len() as int));
        assert(binary_count(g1) == binary_count(g0));
    }
    let row = g.uses_of(id);
    let mut users: Vec<(CellId, u32)> = Vec::new();
    let mut c: usize = 0;
    while c < row.len()
        invariant
            c <= row@.len(),
            users@ == row@.take(c as int),
        decreases row@.len() - c,
    {
        users.push(row[c]);
        c = c + 1;
        assert(users@ =~= row@.take(c as int));
    }
    proof {
        assert(users@ =~= row@);
        assert(g1.tables.users@.len() == g1.slab@.len());
        assert forall|j: int| 0 <= j < users@.len() implies is_use_of(g1, xi, #[trigger] users@[j]) by {
            assert(g1.tables.users@[xi]@.contains(users@[j]));
        }
        assert forall|w: (CellId, u32)| #[trigger] is_use_of(g1, xi, w) implies users@.contains(w) by {
            assert(g1.tables.users@[xi]@.contains(w));
        }
    }
    let ghost e1 = rec.edits@;
    let ghost g_pre = *g;
    move_uses(f, g, rec, id, new_id, &users, Ghost(tgt), Ghost(k + 1));
    let summary = render_cell(g, id);
    let ghost gb = *g;
    let ghost eb = rec.edits@;
    let _ = g.remove_cell(id);
    let mut ledger = String::new();
    push_str(&mut ledger, "folded into ");
    let t = new_id.to_text();
    push_str(&mut ledger, t.as_str());
    let ghost lg = ledger@;
    rec.edits.push(Edit::RemoveCell { id, ledger, summary });
    proof {
        reveal_strlit("folded into ");
        assert(lg[0] == 'f');
        assert(!all_ws(lg)) by {
            assert(!crate::lex::is_ws(lg[0]));
        }
        lemma_push_keeps(eb, rec.edits@, rec.edits@.last());
        let ga = *g;
        assert forall|i: int| i != id.0 implies #[trigger] cell_at(ga, i) == cell_at(gb, i) by {}
        assert(gb.regions@[cell_at(gb, id.0 as int)->0.region.0 as int].cells@.contains(CellId((id.0 as int) as u32)));
        assert(cell_at(ga, id.0 as int) is None);
        assert(is_binary_at(gb, id.0 as int));
        assert forall|i: int| 0 <= i < gb.slab@.len() && i != id.0 implies #[trigger] is_binary_at(gb, i) == is_binary_at(ga, i) by {
            assert(cell_at(ga, i) == cell_at(gb, i));
        }
        lemma_binary_drop(gb, ga, gb.slab@.len() as int, id.0 as int);
        lemma_binary_same(gb, g1, gb.slab@.len() as int);
        assert(rec.edits@[rec.edits@.len() - 1] matches Edit::RemoveCell { id: i, ledger, .. } && i == id && !all_ws(
            ledger@,
        ));
        assert forall|i: int| #[trigger] cell_at(*f, i) is Some && cell_at(ga, i) is None implies ledgered_in(
            rec.edits@,
            CellId(i as u32),
        ) by {
            if i == id.0 {
                assert(CellId(i as u32) == id);
            } else {
                assert(cell_at(gb, i) is None);
            }
        }
        assert forall|i: int| #[trigger] cell_at(ga, i) is Some && cell_at(*f, i) is None implies added_in(
            rec.edits@,
            CellId(i as u32),
        ) by {
            assert(cell_at(gb, i) is Some);
        }
        assert forall|i: int| #[trigger] cell_at(ga, i) is Some implies ((cell_at(ga, i)->0.kind is Arith || cell_at(
            ga,
            i,
        )->0.kind is Cmp) ==> cell_at(ga, i)->0.operands.len() >= 2) by {
            assert(cell_at(gb, i) is Some);
        }
        assert forall|i: int| #[trigger] cell_at(ga, i) is Some implies !(cell_at(ga, i)->0.kind matches KindV::Const { val: ConstVal::F64(_), .. }) by {
            assert(cell_at(gb, i) is Some);
        }
        assert forall|i: int, q: int| #[trigger] cell_at(ga, i) is Some && 0 <= q < cell_at(ga, i)->0.operands.len()
            implies (#[trigger] cell_at(ga, i)->0.operands[q]).0 < ga.slab@.len() by {
            assert(cell_at(gb, i) is Some);
        }
        assert forall|q: int| 0 <= q < rec.edits@.len() implies !(#[trigger] rec.edits@[q] matches Edit::RemoveCell {
            ledger,
            ..
        } && all_ws(ledger@)) by {
            if q < eb.len() {
                assert(rec.edits@[q] == eb[q]);
            }
        }
        // the fold is tracked
        let t2 = tgt.insert(xi, ni);
        assert forall|i: int| 0 <= i < f.slab@.len() && #[trigger] cell_at(ga, i) is Some implies kept_cell(*f, ga, t2, i) by {
            assert(cell_at(ga, i) == cell_at(gb, i));
        }
        assert forall|i: int| f.slab@.len() <= i && #[trigger] cell_at(ga, i) is Some implies cell_at(ga, i)->0.kind is Const
            && cell_at(ga, i)->0.operands.len() == 0 by {
            assert(cell_at(ga, i) == cell_at(gb, i));
        }
        assert forall|y: int| #[trigger] t2.dom().contains(y) implies folded_to(*f, ga, y, t2[y], k + 1) by {
            if y == xi {
                assert(cell_at(ga, ni) == cell_at(gb, ni));
                assert(cell_at(gb, ni) == cell_at(g1, ni));
            } else {
                assert(folded_to(*f, gb, y, tgt[y], k + 1));
                assert(cell_at(ga, tgt[y]) == cell_at(gb, tgt[y]));
                assert(cell_at(ga, y) == cell_at(gb, y));
            }
        }
        assert forall|uu: int, q: int| #[trigger] cell_at(ga, uu) is Some && 0 <= q < cell_at(ga, uu)->0.operands.len()
            implies !t2.dom().contains((#[trigger] cell_at(ga, uu)->0.operands[q]).0 as int) by {
            assert(cell_at(ga, uu) == cell_at(gb, uu));
            assert(!is_use_of(gb, xi, (CellId(uu as u32), q as u32)));
        }
        assert(fold_track(*f, ga, t2, k + 1));
        // the region lists: the constant stands where the folded cell stood
        lemma_lists_step(*f, g0, g_pre, ga, tgt, k, id, new_id, region.0 as int, index as int);
        assert forall|x: int| #[trigger] t2.dom().contains(x) implies exists|j: int| 0 <= j < rec.edits@.len() && #[trigger] rec.edits@[j] is RemoveCell
            && rec.edits@[j]->RemoveCell_id.0 == x by {
            if x == xi {
                assert(rec.edits@[rec.edits@.len() - 1] is RemoveCell);
            } else {
                let j = choose|j: int| 0 <= j < e0.len() && #[trigger] e0[j] is RemoveCell && e0[j]->RemoveCell_id.0 == x;
                assert(rec.edits@[j] == eb[j]);
                assert(eb[j] == e1[j]);
                assert(e1[j] == e0[j]);
            }
        }
        // the ledgers
        assert(ledger_names(lg, ni)) by {
            assert(lg =~= "folded into "@ + cell_id_text(CellId(ni as u32)));
        }
        // constants numbered in fold order
        let fin = rec.edits@;
        let m = fin.len() - 1;
        assert(eb.len() == m);
        assert forall|i: int| 0 <= i < e0.len() implies #[trigger] fin[i] == e0[i] by {
            assert(fin[i] == eb[i]);
            assert(eb[i] == e1[i]);
            assert(e1[i] == e0[i]);
        }
        assert forall|i: int| 0 <= i < eb.len() implies #[trigger] fin[i] == eb[i] by {}
        assert forall|i: int| e0.len() <= i < m implies !(#[trigger] fin[i] is RemoveCell) by {
            assert(fin[i] == eb[i]);
            if i >= e1.len() {
                assert(eb[i] is Retarget);
            } else {
                assert(e1[i] is AddCell);
            }
        }
        lemma_removes_none(fin, e0.len() as int, m);
        lemma_removes_prefix(e0, fin, e0.len() as int);
        assert(count_removes(fin, m) + f.slab@.len() == ni);
        assert(count_removes(fin, fin.len() as int) == count_removes(fin, m) + 1);
        assert forall|j: int| 0 <= j < fin.len() && (#[trigger] fin[j]) is RemoveCell implies ledger_names(
            fin[j]->RemoveCell_ledger@,
            (f.slab@.len() + count_removes(fin, j)) as int,
        ) by {
            if j < e0.len() {
                lemma_removes_prefix(e0, fin, j);
                assert(fin[j] == e0[j]);
            } else if j < m {
                assert(!(fin[j] is RemoveCell));
            }
        }
        assert forall|j: int| 0 <= j < rec.edits@.len() && (#[trigger] rec.edits@[j]) is RemoveCell implies t2.dom().contains(
            rec.edits@[j]->RemoveCell_id.0 as int,
        ) && ledger_names(rec.edits@[j]->RemoveCell_ledger@, t2[rec.edits@[j]->RemoveCell_id.0 as int]) by {
            if j < e0.len() {
                assert(rec.edits@[j] == eb[j]);
                assert(eb[j] == e1[j]);
                assert(e1[j] == e0[j]);
                assert(ledgers_name(e0, tgt));
                assert(tgt.dom().contains(e0[j]->RemoveCell_id.0 as int));
            } else if j < eb.len() {
                assert(rec.edits@[j] == eb[j]);
                if j >= e1.len() {
                    assert(eb[j] is Retarget);
                } else {
                    assert(e1[j] is AddCell);
                }
            }
        }
    }
    Ok(())
}

/// What the fold loop keeps is the conservation law: the check passes on
/// the input, the current fabric and the edits so far.
pub proof fn lemma_fold_conserves(f: Fabric, g: Fabric, edits: Seq<Edit>)
    requires
        f.wf(),
        fold_inv(f, g, edits),
    ensures
        conserve_verdict(f, g, edits) is Ok,
{
    crate::conserve::lemma_blank_scan(edits, 0);
    crate::conserve::lemma_vanish_scan(f, g, edits, 0, f.slab@.len() as int);
    assert forall|i: int| 0 <= i < f.slab@.len() implies !#[trigger] crate::conserve::vanished(f, g, edits, i) by {
        if cell_at(f, i) is Some && cell_at(g, i) is None {
            assert(ledgered_in(edits, CellId(i as u32)));
            let k = choose|k: int| 0 <= k < edits.len() && (#[trigger] edits[k] matches Edit::RemoveCell { id: x, ledger, .. }
                && x == CellId(i as u32) && !all_ws(ledger@));
            assert(edits[k] matches Edit::RemoveCell { id: x, .. } && x == CellId(i as u32));
        }
    }
    crate::conserve::lemma_appear_scan(f, g, edits, 0, g.slab@.len() as int);
    assert forall|i: int| 0 <= i < g.slab@.len() implies !#[trigger] crate::conserve::appeared(f, g, edits, i) by {
        if cell_at(g, i) is Some && cell_at(f, i) is None {
            assert(added_in(edits, CellId(i as u32)));
        }
    }
}

proof fn lemma_track_exact(f: Fabric, g: Fabric, tgt: Map<int, int>, k: nat, edits: Seq<Edit>)
    requires
        fold_track(f, g, tgt, k),
        ledgers_name(edits, tgt),
        k <= f.slab@.len(),
    ensures
        folds_exact(f, g, edits),
{
    assert forall|j: int| 0 <= j < edits.len() && (#[trigger] edits[j]) is RemoveCell implies fold_entry(
        f,
        g,
        edits[j]->RemoveCell_id.0 as int,
        edits[j]->RemoveCell_ledger@,
    ) by {
        let x = edits[j]->RemoveCell_id.0 as int;
        let n = tgt[x];
        assert(folded_to(f, g, x, n, k));
        lemma_static_mono(f, x, k, f.slab@.len() as nat);
        assert forall|u: int, s: int| 0 <= u < f.slab@.len() && #[trigger] cell_at(g, u) is Some && 0 <= s < cell_at(
            f,
            u,
        )->0.operands.len() && (#[trigger] cell_at(f, u)->0.operands[s]).0 == x implies cell_at(g, u)->0.operands[s].0
            == n by {
            assert(kept_cell(f, g, tgt, u));
            assert(!tgt.dom().contains(cell_at(g, u)->0.operands[s].0 as int));
        }
        assert(ledger_names(edits[j]->RemoveCell_ledger@, n));
    }
}

/// What constant folding makes of `f`: `g` and the record `rec`.
pub open spec fn fold_result(f: Fabric, g: Fabric, rec: DiffRecord) -> bool {
    &&& fold_inv(f, g, rec.edits@)
    &&& forall|i: int| !#[trigger] foldable(g, i)
    &&& folds_exact(f, g, rec.edits@)
    &&& ids_in_fold_order(f, rec.edits@)
    &&& lists_folded(f, g, rec.edits@)
    &&& conserve_verdict(f, g, rec.edits@) is Ok
    &&& rec.pass@ == "constfold"@
    &&& rec.notes@.len() == 0
}

/// No cell of `f` folds.
pub open spec fn nothing_folds(f: Fabric) -> bool {
    forall|i: int| !#[trigger] foldable(f, i)
}

proof fn lemma_same_foldable(a: Fabric, b: Fabric)
    requires
        same_content(a, b),
    ensures
        forall|i: int| #[trigger] foldable(a, i) == foldable(b, i),
{
    assert forall|j: int| #[trigger] cell_at(a, j) == cell_at(b, j) by {}
}

/// Constant folding to a fixed point. The result is well formed, no
/// cell of it folds any more, and the conservation check passes on the
/// input, the result and the record: every folded cell is removed with a
/// `folded into %n` ledger entry naming its constant, every constant is
/// added by an edit. A fabric where nothing folds comes back with the
/// same content and no edits. `Err` only when ten thousand sweeps do not
/// settle, or when no cell id is left for a new constant; neither can
/// happen while folding is owed.
#[verifier::rlimit(100)]
#[verifier::spinoff_prover]
pub fn const_fold(f: &Fabric) -> (r: Result<(Fabric, DiffRecord), String>)
    requires
        f.wf(),
        binary_cells(*f),
        no_float_consts(*f),
        operands_in_slab(*f),
    ensures
        match r {
            Ok((g, rec)) => fold_result(*f, g, rec) && rec.epoch == 0,
            Err(e) => (e@ == guard_message() || e@ == exhausted_message()) && !fold_owed(*f),
        },
        fold_owed(*f) ==> r is Ok,
        nothing_folds(*f) ==> (r matches Ok((g, rec)) && same_content(*f, g) && rec.edits@.len() == 0),
{
    let mut g = f.copy();
    let mut rec = DiffRecord::new("constfold");
    proof {
        reveal_strlit("constfold");
        assert(same_content(*f, g));
        assert forall|i: int| #[trigger] cell_at(g, i) == cell_at(*f, i) by {}
        assert forall|i: int, k: int| #[trigger] cell_at(g, i) is Some && 0 <= k < cell_at(g, i)->0.operands.len()
            implies (#[trigger] cell_at(g, i)->0.operands[k]).0 < g.slab@.len() by {
            assert(cell_at(*f, i)->0.operands[k] == cell_at(g, i)->0.operands[k]);
        }
        assert forall|i: int| #[trigger] cell_at(g, i) is Some implies ((cell_at(g, i)->0.kind is Arith || cell_at(
            g,
            i,
        )->0.kind is Cmp) ==> cell_at(g, i)->0.operands.len() >= 2) by {
            assert(cell_at(*f, i) is Some);
        }
        assert forall|i: int| #[trigger] cell_at(g, i) is Some implies !(cell_at(g, i)->0.kind matches KindV::Const { val: ConstVal::F64(_), .. }) by {
            assert(cell_at(*f, i) is Some);
        }
    }
    proof {
        assert forall|i: int| 0 <= i < f.slab@.len() implies #[trigger] is_binary_at(g, i) == is_binary_at(*f, i) by {}
        lemma_binary_same(g, *f, f.slab@.len() as int);
        lemma_binary_bound(*f, f.slab@.len() as int);
        assert forall|i: int| 0 <= i < f.slab@.len() && #[trigger] cell_at(g, i) is Some implies kept_cell(
            *f,
            g,
            Map::empty(),
            i,
        ) by {
            assert(cell_at(g, i) == cell_at(*f, i));
        }
    }
    let ghost mut tgt: Map<int, int> = Map::empty();
    proof {
        assert forall|r: int| 0 <= r < f.regions@.len() implies (#[trigger] g.regions@[r]).cells@ == f.regions@[r].cells@.map_values(
            |id: CellId| resolved(tgt, id),
        ) by {
            assert(g.regions@[r].cells@ =~= f.regions@[r].cells@.map_values(|id: CellId| resolved(tgt, id)));
        }
    }
    let mut changed = true;
    let mut guard: u32 = 0;
    while changed
        invariant
            f.wf(),
            fold_inv(*f, g, rec.edits@),
            fold_track(*f, g, tgt, (g.slab@.len() - f.slab@.len()) as nat),
            ledgers_name(rec.edits@, tgt),
            ids_in_fold_order(*f, rec.edits@),
            lists_follow(*f, g, tgt),
            removed_all(rec.edits@, tgt),
            count_removes(rec.edits@, rec.edits@.len() as int) + f.slab@.len() == g.slab@.len(),
            operands_in_slab(*f),
            binary_count(g) + g.slab@.len() == binary_count(*f) + f.slab@.len(),
            changed ==> guard <= g.slab@.len() - f.slab@.len(),
            nothing_folds(*f) ==> same_content(*f, g) && rec.edits@.len() == 0 && (guard == 0) == changed,
            guard <= 10000,
            rec.pass@ == "constfold"@,
            rec.epoch == 0,
            rec.notes@.len() == 0,
            !changed ==> forall|i: int| !#[trigger] foldable(g, i),
        decreases 10000 - guard,
    {
        changed = false;
        guard = guard + 1;
        if guard > 10000 {
            proof {
                assert(!fold_owed(*f));
            }
            let mut e = String::new();
            push_str(&mut e, "constfold exceeded fixpoint guard (10k sweeps)");
            return Err(e);
        }
        let ghost start = g;
        let n = g.regions.len();
        let mut ri: usize = 0;
        while ri < n
            invariant
                f.wf(),
                fold_inv(*f, g, rec.edits@),
                fold_track(*f, g, tgt, (g.slab@.len() - f.slab@.len()) as nat),
                ledgers_name(rec.edits@, tgt),
                ids_in_fold_order(*f, rec.edits@),
                lists_follow(*f, g, tgt),
                removed_all(rec.edits@, tgt),
                count_removes(rec.edits@, rec.edits@.len() as int) + f.slab@.len() == g.slab@.len(),
                operands_in_slab(*f),
                binary_count(g) + g.slab@.len() == binary_count(*f) + f.slab@.len(),
                1 <= guard <= 10000,
                guard - 1 <= start.slab@.len() - f.slab@.len(),
                g.slab@.len() >= start.slab@.len(),
                changed ==> g.slab@.len() > start.slab@.len(),
                nothing_folds(*f) ==> same_content(*f, g) && rec.edits@.len() == 0 && !changed && guard == 1,
                n == g.regions@.len(),
                ri <= n,
                rec.pass@ == "constfold"@,
                rec.epoch == 0,
                rec.notes@.len() == 0,
                !changed ==> g == start,
                !changed ==> forall|q: int, k: int| 0 <= q < ri && 0 <= k < g.regions@[q].cells@.len()
                    ==> !#[trigger] foldable(g, g.regions@[q].cells@[k].0 as int),
            decreases n - ri,
        {
            let ids = copy_ids(&g.regions[ri].cells);
            let mut k: usize = 0;
            while k < ids.len()
                invariant
                    f.wf(),
                    fold_inv(*f, g, rec.edits@),
                    fold_track(*f, g, tgt, (g.slab@.len() - f.slab@.len()) as nat),
                    ledgers_name(rec.edits@, tgt),
                    ids_in_fold_order(*f, rec.edits@),
                    lists_follow(*f, g, tgt),
                    removed_all(rec.edits@, tgt),
                    count_removes(rec.edits@, rec.edits@.len() as int) + f.slab@.len() == g.slab@.len(),
                    operands_in_slab(*f),
                    binary_count(g) + g.slab@.len() == binary_count(*f) + f.slab@.len(),
                    1 <= guard <= 10000,
                    guard - 1 <= start.slab@.len() - f.slab@.len(),
                    g.slab@.len() >= start.slab@.len(),
                    changed ==> g.slab@.len() > start.slab@.len(),
                    nothing_folds(*f) ==> same_content(*f, g) && rec.edits@.len() == 0 && !changed && guard == 1,
                    n == g.regions@.len(),
                    ri < n,
                    k <= ids@.len(),
                    rec.pass@ == "constfold"@,
                    rec.epoch == 0,
                    rec.notes@.len() == 0,
                    !changed ==> g == start,
                    !changed ==> ids@ == g.regions@[ri as int].cells@,
                    !changed ==> forall|q: int, k: int| 0 <= q < ri && 0 <= k < g.regions@[q].cells@.len()
                        ==> !#[trigger] foldable(g, g.regions@[q].cells@[k].0 as int),
                    !changed ==> forall|j: int| 0 <= j < k ==> !#[trigger] foldable(g, ids@[j].0 as int),
                decreases ids@.len() - k,
            {
                let id = ids[k];
                proof {
                    if nothing_folds(*f) {
                        lemma_same_foldable(*f, g);
                    }
                }
                match fold_of(&g, id) {
                    Some(val) => {
                        proof {
                            assert(foldable(g, id.0 as int));
                            if nothing_folds(*f) {
                                assert(!foldable(*f, id.0 as int));
                            }
                            assert(is_binary_at(g, id.0 as int));
                            lemma_binary_pos(g, g.slab@.len() as int, id.0 as int);
                        }
                        let ghost slab0 = g.slab@.len() as int;
                        let ghost k0 = (g.slab@.len() - f.slab@.len()) as nat;
                        match fold_one(f, &mut g, &mut rec, id, val, Ghost(tgt), Ghost(k0)) {
                            Ok(()) => {
                                proof {
                                    tgt = tgt.insert(id.0 as int, slab0);
                                }
                                changed = true;
                            },
                            Err(e) => {
                                proof {
                                    assert(!fold_owed(*f));
                                }
                                return Err(e);
                            },
                        }
                    },
                    None => {},
                }
                k = k + 1;
            }
            ri = ri + 1;
        }
        proof {
            if !changed {
                assert forall|i: int| !#[trigger] foldable(g, i) by {
                    if foldable(g, i) {
                        let r = cell_at(g, i)->0.region.0 as int;
                        assert(g.regions@[r].cells@.contains(CellId(i as u32)));
                        let k = choose|k: int| 0 <= k < g.regions@[r].cells@.len() && g.regions@[r].cells@[k] == CellId(i as u32);
                        assert(g.regions@[r].cells@[k].0 as int == i);
                    }
                }
            }
        }
    }
    proof {
        lemma_fold_conserves(*f, g, rec.edits@);
        lemma_binary_bound(*f, f.slab@.len() as int);
        lemma_track_exact(*f, g, tgt, (g.slab@.len() - f.slab@.len()) as nat, rec.edits@);
        lemma_lists_folded(*f, g, tgt, rec.edits@, (g.slab@.len() - f.slab@.len()) as nat);
    }
    Ok((g, rec))
}

} // verus!
