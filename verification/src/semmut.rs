//! The semantic mutation tier: mutants that are structurally valid but
//! semantically wrong, and the statistics a battery run reports.
//!
//! Dataflow kinds have a mechanical wrongness oracle (a value changes);
//! control kinds do not (there are no execution semantics for control
//! flow), so their mutants are counted as unjudgeable.

use vstd::prelude::*;
use crate::cell::{ArithOp, CellKind, CellV, CmpOp, KindV, copy_ids, kind_is_terminator};
use crate::fabric::{Fabric, cell_at, cell_ty, content_wf, same_content, ty_walk_ends};
use crate::fuzz::{Rng, cell_replaced, lemma_walk_same, pick_id, types_known};
use crate::id::{CellId, RegionId};
use crate::usetables::copy_regions;
use crate::ty::{ConstVal, Type, const_ty};
use crate::tally::{bump, key_pos, slot, unique_keys};
use crate::chars::str_eq;

verus! {

/// The semantic mutation kinds.
#[derive(Clone, Copy, PartialEq, Eq, Debug, Structural)]
pub enum SemKind {
    /// dataflow: bump an i32/i64/f64 const by one
    ConstOffByOne,
    /// dataflow: swap the operands of a Sub/Div cell
    ArithSubDivSwap,
    /// dataflow: swap the operands of an ordered comparison
    CmpOrderedSwap,
    /// dataflow: make a ret return a different same-typed value
    RetValueSwap,
    /// control: swap the then/else targets of a branch
    BranchTargetSwap,
    /// control: rebind one phi operand to another value of the same join
    PhiOperandRebind,
    /// control: drop a branch arm together with its phi joins
    JoinDropWithEdge,
    /// calibration: tamper a folded const in a pipeline's output
    StageTamperControl,
}

pub open spec fn sem_kind_text(k: SemKind) -> Seq<char> {
    match k {
        SemKind::ConstOffByOne => "const-off-by-one"@,
        SemKind::ArithSubDivSwap => "arith-sub-div-swap"@,
        SemKind::CmpOrderedSwap => "cmp-ordered-swap"@,
        SemKind::RetValueSwap => "ret-value-swap"@,
        SemKind::BranchTargetSwap => "branch-target-swap"@,
        SemKind::PhiOperandRebind => "phi-operand-rebind"@,
        SemKind::JoinDropWithEdge => "join-drop-with-edge"@,
        SemKind::StageTamperControl => "stage-tamper-control"@,
    }
}

pub open spec fn sem_kind_dataflow(k: SemKind) -> bool {
    k is ConstOffByOne || k is ArithSubDivSwap || k is CmpOrderedSwap || k is RetValueSwap
}

impl SemKind {
    pub fn name(self) -> (r: &'static str)
        ensures
            r@ == sem_kind_text(self),
    {
        match self {
            SemKind::ConstOffByOne => "const-off-by-one",
            SemKind::ArithSubDivSwap => "arith-sub-div-swap",
            SemKind::CmpOrderedSwap => "cmp-ordered-swap",
            SemKind::RetValueSwap => "ret-value-swap",
            SemKind::BranchTargetSwap => "branch-target-swap",
            SemKind::PhiOperandRebind => "phi-operand-rebind",
            SemKind::JoinDropWithEdge => "join-drop-with-edge",
            SemKind::StageTamperControl => "stage-tamper-control",
        }
    }

    /// Dataflow kinds have a mechanical wrongness oracle; control kinds
    /// do not.
    pub fn is_dataflow(self) -> (b: bool)
        ensures
            b == sem_kind_dataflow(self),
    {
        match self {
            SemKind::ConstOffByOne | SemKind::ArithSubDivSwap | SemKind::CmpOrderedSwap
            | SemKind::RetValueSwap => true,
            _ => false,
        }
    }
}

/// Per-judge cost accounting: calls, kills (fired) and time spent.
#[derive(Debug, Default, Clone)]
pub struct JudgeCost {
    pub calls: u64,
    pub fired: u64,
    pub ns: u128,
}

/// Per-kind statistics.
#[derive(Debug, Default, Clone)]
pub struct KindStat {
    pub attempted: u64,
    pub no_site: u64,
    /// mutant failed verification: excluded from judging
    pub structural_invalid: u64,
    /// structurally valid mutants run through the battery
    pub judged: u64,
    /// dataflow-decidable, value unchanged
    pub sem_equivalent: u64,
    /// dataflow-decidable, value changed
    pub sem_wrong: u64,
    /// no execution semantics to prove wrongness
    pub unjudgeable: u64,
    /// at least one judge fired
    pub killed: u64,
    /// per-judge fire counts, each judge once
    pub fired: Vec<(String, u64)>,
}

#[derive(Debug, Default, Clone)]
pub struct SemReport {
    pub iters: u64,
    /// statistics per kind name, each name once
    pub kinds: Vec<(&'static str, KindStat)>,
    /// wall time per judge (an observation about cost, not a result)
    pub judge_cost: Vec<(String, JudgeCost)>,
    /// the dataflow wrongness oracle's own cost
    pub oracle_cost: JudgeCost,
}

impl KindStat {
    /// Each judge is counted under one entry.
    pub open spec fn wf(&self) -> bool {
        unique_keys(self.fired@)
    }

    /// A statistic with nothing counted yet.
    pub fn zero() -> (k: KindStat)
        ensures
            k.attempted == 0 && k.no_site == 0 && k.structural_invalid == 0 && k.judged == 0,
            k.sem_equivalent == 0 && k.sem_wrong == 0 && k.unjudgeable == 0 && k.killed == 0,
            k.fired@.len() == 0,
            k.wf(),
    {
        KindStat {
            attempted: 0,
            no_site: 0,
            structural_invalid: 0,
            judged: 0,
            sem_equivalent: 0,
            sem_wrong: 0,
            unjudgeable: 0,
            killed: 0,
            fired: Vec::new(),
        }
    }

    /// Count one fire of judge `judge`.
    pub fn note_fired(&mut self, judge: &str)
        requires
            old(self).wf(),
            forall|i: int| 0 <= i < old(self).fired@.len() ==> (#[trigger] old(self).fired@[i]).1 < u64::MAX,
        ensures
            final(self).wf(),
            match key_pos(old(self).fired@, judge@, old(self).fired@.len() as int) {
                Some(i) => final(self).fired@.len() == old(self).fired@.len()
                    && final(self).fired@[i].1 == old(self).fired@[i].1 + 1
                    && forall|j: int| 0 <= j < old(self).fired@.len() && j != i
                        ==> #[trigger] final(self).fired@[j] == old(self).fired@[j],
                None => final(self).fired@.len() == old(self).fired@.len() + 1
                    && final(self).fired@[old(self).fired@.len() as int].0@ == judge@
                    && final(self).fired@[old(self).fired@.len() as int].1 == 1
                    && forall|j: int| 0 <= j < old(self).fired@.len()
                        ==> #[trigger] final(self).fired@[j] == old(self).fired@[j],
            },
            final(self).killed == old(self).killed,
            final(self).judged == old(self).judged,
    {
        bump(&mut self.fired, judge);
    }
}

/// No kind name occurs twice.
pub open spec fn unique_names(s: Seq<(&'static str, KindStat)>) -> bool {
    forall|i: int, j: int| 0 <= i < j < s.len() ==> #[trigger] s[i].0@ != #[trigger] s[j].0@
}

impl SemReport {
    /// Each kind and each judge has one entry, and every kind's fire
    /// counts are keyed once per judge.
    pub open spec fn wf(&self) -> bool {
        &&& unique_names(self.kinds@)
        &&& forall|i: int| 0 <= i < self.kinds@.len() ==> (#[trigger] self.kinds@[i]).1.wf()
        &&& unique_keys(self.judge_cost@)
    }

    /// The entry of kind `name`, added last with nothing counted when
    /// absent.
    pub fn kind_slot(&mut self, name: &'static str) -> (i: usize)
        requires
            old(self).wf(),
        ensures
            final(self).wf(),
            i < final(self).kinds@.len(),
            final(self).kinds@[i as int].0@ == name@,
            forall|j: int| 0 <= j < old(self).kinds@.len() ==> #[trigger] final(self).kinds@[j] == old(self).kinds@[j],
            (forall|j: int| 0 <= j < old(self).kinds@.len() ==> old(self).kinds@[j].0@ != name@) ==> (i
                == old(self).kinds@.len() && final(self).kinds@.len() == old(self).kinds@.len() + 1
                && final(self).kinds@[i as int].1.fired@.len() == 0 && final(self).kinds@[i as int].1.killed == 0),
            (exists|j: int| 0 <= j < old(self).kinds@.len() && old(self).kinds@[j].0@ == name@) ==> final(self).kinds@
                == old(self).kinds@,
            final(self).judge_cost == old(self).judge_cost,
    {
        let mut i: usize = 0;
        while i < self.kinds.len()
            invariant
                i <= self.kinds@.len(),
                *self == *old(self),
                self.wf(),
                forall|j: int| 0 <= j < i ==> self.kinds@[j].0@ != name@,
            decreases self.kinds@.len() - i,
        {
            if str_eq(self.kinds[i].0, name) {
                return i;
            }
            i = i + 1;
        }
        let ghost before = self.kinds@;
        let n = self.kinds.len();
        self.kinds.push((name, KindStat::zero()));
        proof {
            assert forall|a: int, b: int| 0 <= a < b < self.kinds@.len() implies #[trigger] self.kinds@[a].0@
                != #[trigger] self.kinds@[b].0@ by {
                if b < before.len() {
                    assert(self.kinds@[a] == before[a]);
                    assert(self.kinds@[b] == before[b]);
                }
            }
            assert forall|j: int| 0 <= j < self.kinds@.len() implies (#[trigger] self.kinds@[j]).1.wf() by {
                if j < before.len() {
                    assert(self.kinds@[j] == before[j]);
                }
            }
        }
        n
    }

    /// The cost entry of judge `judge`, added last at zero when absent.
    pub fn cost_slot(&mut self, judge: &str) -> (i: usize)
        requires
            old(self).wf(),
        ensures
            final(self).wf(),
            i < final(self).judge_cost@.len(),
            final(self).judge_cost@[i as int].0@ == judge@,
            match key_pos(old(self).judge_cost@, judge@, old(self).judge_cost@.len() as int) {
                Some(p) => i == p && final(self).judge_cost@ == old(self).judge_cost@,
                None => i == old(self).judge_cost@.len() && final(self).judge_cost@.len() == old(
                    self,
                ).judge_cost@.len() + 1 && final(self).judge_cost@[i as int].1 == (JudgeCost {
                    calls: 0,
                    fired: 0,
                    ns: 0,
                }) && forall|j: int| 0 <= j < old(self).judge_cost@.len() ==> #[trigger] final(self).judge_cost@[j]
                    == old(self).judge_cost@[j],
            },
            final(self).kinds == old(self).kinds,
    {
        slot(&mut self.judge_cost, judge, JudgeCost { calls: 0, fired: 0, ns: 0 })
    }
}

/// The sum of one statistic over all kinds.
pub open spec fn stat_sum(s: Seq<(&'static str, KindStat)>, field: spec_fn(KindStat) -> u64) -> nat
    decreases s.len(),
{
    if s.len() == 0 {
        0
    } else {
        stat_sum(s.drop_last(), field) + field(s.last().1) as nat
    }
}

pub open spec fn judged_of(k: KindStat) -> u64 {
    k.judged
}

pub open spec fn sem_wrong_of(k: KindStat) -> u64 {
    k.sem_wrong
}

pub open spec fn killed_of(k: KindStat) -> u64 {
    k.killed
}

pub open spec fn unjudgeable_of(k: KindStat) -> u64 {
    k.unjudgeable
}

proof fn lemma_stat_prefix(s: Seq<(&'static str, KindStat)>, field: spec_fn(KindStat) -> u64, k: int)
    requires
        0 <= k <= s.len(),
    ensures
        stat_sum(s.take(k), field) <= stat_sum(s, field),
    decreases s.len(),
{
    if k < s.len() {
        assert(s.drop_last().take(k) =~= s.take(k));
        lemma_stat_prefix(s.drop_last(), field, k);
    } else {
        assert(s.take(k) =~= s);
    }
}

/// Which statistic to add up.
pub enum StatField {
    Judged,
    SemWrong,
    Killed,
    Unjudgeable,
}

pub open spec fn field_fn(w: StatField) -> spec_fn(KindStat) -> u64 {
    match w {
        StatField::Judged => |k: KindStat| judged_of(k),
        StatField::SemWrong => |k: KindStat| sem_wrong_of(k),
        StatField::Killed => |k: KindStat| killed_of(k),
        StatField::Unjudgeable => |k: KindStat| unjudgeable_of(k),
    }
}

fn pick_field(k: &KindStat, w: &StatField) -> (v: u64)
    ensures
        v == (field_fn(*w))(*k),
{
    match w {
        StatField::Judged => k.judged,
        StatField::SemWrong => k.sem_wrong,
        StatField::Killed => k.killed,
        StatField::Unjudgeable => k.unjudgeable,
    }
}

fn sum_field(s: &Vec<(&'static str, KindStat)>, w: StatField) -> (t: u64)
    requires
        stat_sum(s@, field_fn(w)) <= u64::MAX,
    ensures
        t == stat_sum(s@, field_fn(w)),
{
    let ghost f = field_fn(w);
    let mut t: u64 = 0;
    let mut i: usize = 0;
    while i < s.len()
        invariant
            f == field_fn(w),
            i <= s@.len(),
            stat_sum(s@, f) <= u64::MAX,
            t == stat_sum(s@.take(i as int), f),
        decreases s@.len() - i,
    {
        proof {
            assert(s@.take(i + 1).drop_last() =~= s@.take(i as int));
            lemma_stat_prefix(s@, f, i + 1);
        }
        t = t + pick_field(&s[i].1, &w);
        i = i + 1;
    }
    assert(s@.take(i as int) =~= s@);
    t
}

impl SemReport {
    pub fn judged_total(&self) -> (t: u64)
        requires
            stat_sum(self.kinds@, |k: KindStat| judged_of(k)) <= u64::MAX,
        ensures
            t == stat_sum(self.kinds@, |k: KindStat| judged_of(k)),
    {
        assert(field_fn(StatField::Judged) == (|k: KindStat| judged_of(k)));
        sum_field(&self.kinds, StatField::Judged)
    }

    pub fn sem_wrong_total(&self) -> (t: u64)
        requires
            stat_sum(self.kinds@, |k: KindStat| sem_wrong_of(k)) <= u64::MAX,
        ensures
            t == stat_sum(self.kinds@, |k: KindStat| sem_wrong_of(k)),
    {
        assert(field_fn(StatField::SemWrong) == (|k: KindStat| sem_wrong_of(k)));
        sum_field(&self.kinds, StatField::SemWrong)
    }

    pub fn killed_total(&self) -> (t: u64)
        requires
            stat_sum(self.kinds@, |k: KindStat| killed_of(k)) <= u64::MAX,
        ensures
            t == stat_sum(self.kinds@, |k: KindStat| killed_of(k)),
    {
        assert(field_fn(StatField::Killed) == (|k: KindStat| killed_of(k)));
        sum_field(&self.kinds, StatField::Killed)
    }

    pub fn unjudgeable_total(&self) -> (t: u64)
        requires
            stat_sum(self.kinds@, |k: KindStat| unjudgeable_of(k)) <= u64::MAX,
        ensures
            t == stat_sum(self.kinds@, |k: KindStat| unjudgeable_of(k)),
    {
        assert(field_fn(StatField::Unjudgeable) == (|k: KindStat| unjudgeable_of(k)));
        sum_field(&self.kinds, StatField::Unjudgeable)
    }
}


/// How deep the dataflow evaluator follows operand wires.
pub const EVAL_DEPTH_LIMIT: u32 = 256;

/// Checked integer arithmetic on two values of one integer type; `None`
/// on overflow, on division by zero, and for any other pair.
pub open spec fn arith_value(op: ArithOp, a: ConstVal, b: ConstVal) -> Option<ConstVal> {
    match (a, b) {
        (ConstVal::I32(x), ConstVal::I32(y)) => match op {
            ArithOp::Add => match x.checked_add(y) { Some(v) => Some(ConstVal::I32(v)), None => None },
            ArithOp::Sub => match x.checked_sub(y) { Some(v) => Some(ConstVal::I32(v)), None => None },
            ArithOp::Mul => match x.checked_mul(y) { Some(v) => Some(ConstVal::I32(v)), None => None },
            ArithOp::Div => match x.checked_div(y) { Some(v) => Some(ConstVal::I32(v)), None => None },
        },
        (ConstVal::I64(x), ConstVal::I64(y)) => match op {
            ArithOp::Add => match x.checked_add(y) { Some(v) => Some(ConstVal::I64(v)), None => None },
            ArithOp::Sub => match x.checked_sub(y) { Some(v) => Some(ConstVal::I64(v)), None => None },
            ArithOp::Mul => match x.checked_mul(y) { Some(v) => Some(ConstVal::I64(v)), None => None },
            ArithOp::Div => match x.checked_div(y) { Some(v) => Some(ConstVal::I64(v)), None => None },
        },
        _ => None,
    }
}

/// An integer comparison of two values of one type (`i1` only for `eq`
/// and `ne`); `None` for any other pair.
pub open spec fn compare_value(op: CmpOp, a: ConstVal, b: ConstVal) -> Option<bool> {
    match (a, b) {
        (ConstVal::I1(x), ConstVal::I1(y)) => match op {
            CmpOp::Eq => Some(x == y),
            CmpOp::Ne => Some(x != y),
            _ => None,
        },
        (ConstVal::I32(x), ConstVal::I32(y)) => Some(int_order(op, x as int, y as int)),
        (ConstVal::I64(x), ConstVal::I64(y)) => Some(int_order(op, x as int, y as int)),
        _ => None,
    }
}

pub open spec fn int_order(op: CmpOp, x: int, y: int) -> bool {
    match op {
        CmpOp::Eq => x == y,
        CmpOp::Ne => x != y,
        CmpOp::Lt => x < y,
        CmpOp::Le => x <= y,
        CmpOp::Gt => x > y,
        CmpOp::Ge => x >= y,
    }
}

/// The value of `root` by dataflow alone: consts are their value, arith
/// and compare cells combine their operands' values; params, phis and
/// terminators (and anything deeper than the limit) have none.
pub open spec fn df_eval(f: Fabric, root: CellId, depth: int) -> Option<ConstVal>
    decreases EVAL_DEPTH_LIMIT + 1 - depth,
{
    if depth > EVAL_DEPTH_LIMIT {
        None
    } else {
        match cell_at(f, root.0 as int) {
            None => None,
            Some(c) => match c.kind {
                KindV::Const { val, .. } => Some(val),
                KindV::Arith { op, .. } => match df_eval(f, c.operands[0], depth + 1) {
                    None => None,
                    Some(a) => match df_eval(f, c.operands[1], depth + 1) {
                        None => None,
                        Some(b) => arith_value(op, a, b),
                    },
                },
                KindV::Cmp { op } => match df_eval(f, c.operands[0], depth + 1) {
                    None => None,
                    Some(a) => match df_eval(f, c.operands[1], depth + 1) {
                        None => None,
                        Some(b) => match compare_value(op, a, b) {
                            Some(r) => Some(ConstVal::I1(r)),
                            None => None,
                        },
                    },
                },
                _ => None,
            },
        }
    }
}

/// The dataflow value of an arith cell whose operands evaluate to `i32`
/// values `x` (first operand) and `y` (second) is the checked integer
/// result of `x` and `y` in that order: the sum, the difference `x - y`,
/// the product, or the quotient truncated toward zero; none when the
/// result leaves `i32` or the divisor is zero.
pub proof fn lemma_df_arith_i32(f: Fabric, root: CellId, depth: int, x: i32, y: i32)
    requires
        0 <= depth <= EVAL_DEPTH_LIMIT,
        cell_at(f, root.0 as int) is Some,
        cell_at(f, root.0 as int)->0.kind is Arith,
        df_eval(f, cell_at(f, root.0 as int)->0.operands[0], depth + 1) == Some(ConstVal::I32(x)),
        df_eval(f, cell_at(f, root.0 as int)->0.operands[1], depth + 1) == Some(ConstVal::I32(y)),
    ensures
        ({
            let op = cell_at(f, root.0 as int)->0.kind->Arith_op;
            let r = df_eval(f, root, depth);
            &&& op is Add ==> r == (if i32::MIN <= x + y <= i32::MAX { Some(ConstVal::I32((x + y) as i32)) } else { None })
            &&& op is Sub ==> r == (if i32::MIN <= x - y <= i32::MAX { Some(ConstVal::I32((x - y) as i32)) } else { None })
            &&& op is Mul ==> r == (if i32::MIN <= x * y <= i32::MAX { Some(ConstVal::I32((x * y) as i32)) } else { None })
            &&& op is Div ==> (y == 0 ==> r is None)
            &&& op is Div && 0 <= x && 0 < y ==> r == Some(ConstVal::I32((x / y) as i32))
            &&& op is Div && x < 0 && 0 < y ==> r == Some(ConstVal::I32((-((-(x as int)) / (y as int))) as i32))
            &&& op is Div && 0 <= x && y < 0 ==> r == Some(ConstVal::I32((-((x as int) / (-(y as int)))) as i32))
            &&& op is Div && x < 0 && y < 0 ==> r == (if x == i32::MIN && y == -1 { None } else { Some(
                ConstVal::I32(((-(x as int)) / (-(y as int))) as i32),
            ) })
        }),
{
    let a = x as int;
    let b = y as int;
    if b < 0 {
        if a >= 0 {
            assert(0 <= a / (-b) <= a) by (nonlinear_arith)
                requires
                    a >= 0,
                    -b >= 1,
            ;
        } else {
            assert(0 <= (-a) / (-b) <= -a) by (nonlinear_arith)
                requires
                    -a >= 0,
                    -b >= 1,
            ;
            if b < -1 {
                assert(((-a) / (-b)) * 2 <= -a) by (nonlinear_arith)
                    requires
                        -a >= 0,
                        -b >= 2,
                ;
            } else {
                assert((-a) / 1 == -a);
            }
        }
    }
}

/// The dataflow value of an arith cell whose operands evaluate to `i64`
/// values `x` (first operand) and `y` (second): as for `i32`, in `i64`.
pub proof fn lemma_df_arith_i64(f: Fabric, root: CellId, depth: int, x: i64, y: i64)
    requires
        0 <= depth <= EVAL_DEPTH_LIMIT,
        cell_at(f, root.0 as int) is Some,
        cell_at(f, root.0 as int)->0.kind is Arith,
        df_eval(f, cell_at(f, root.0 as int)->0.operands[0], depth + 1) == Some(ConstVal::I64(x)),
        df_eval(f, cell_at(f, root.0 as int)->0.operands[1], depth + 1) == Some(ConstVal::I64(y)),
    ensures
        ({
            let op = cell_at(f, root.0 as int)->0.kind->Arith_op;
            let r = df_eval(f, root, depth);
            &&& op is Add ==> r == (if i64::MIN <= x + y <= i64::MAX { Some(ConstVal::I64((x + y) as i64)) } else { None })
            &&& op is Sub ==> r == (if i64::MIN <= x - y <= i64::MAX { Some(ConstVal::I64((x - y) as i64)) } else { None })
            &&& op is Mul ==> r == (if i64::MIN <= x * y <= i64::MAX { Some(ConstVal::I64((x * y) as i64)) } else { None })
            &&& op is Div ==> (y == 0 ==> r is None)
            &&& op is Div && 0 <= x && 0 < y ==> r == Some(ConstVal::I64((x / y) as i64))
            &&& op is Div && x < 0 && 0 < y ==> r == Some(ConstVal::I64((-((-(x as int)) / (y as int))) as i64))
            &&& op is Div && 0 <= x && y < 0 ==> r == Some(ConstVal::I64((-((x as int) / (-(y as int)))) as i64))
            &&& op is Div && x < 0 && y < 0 ==> r == (if x == i64::MIN && y == -1 { None } else { Some(
                ConstVal::I64(((-(x as int)) / (-(y as int))) as i64),
            ) })
        }),
{
    let a = x as int;
    let b = y as int;
    if b < 0 {
        if a >= 0 {
            assert(0 <= a / (-b) <= a) by (nonlinear_arith)
                requires
                    a >= 0,
                    -b >= 1,
            ;
        } else {
            assert(0 <= (-a) / (-b) <= -a) by (nonlinear_arith)
                requires
                    -a >= 0,
                    -b >= 1,
            ;
            if b < -1 {
                assert(((-a) / (-b)) * 2 <= -a) by (nonlinear_arith)
                    requires
                        -a >= 0,
                        -b >= 2,
                ;
            } else {
                assert((-a) / 1 == -a);
            }
        }
    }
}

/// The dataflow value of a comparison whose operands evaluate to integers
/// `x` (first operand) and `y` (second), both `i32` or both `i64`, is the
/// `i1` truth of `x op y` in that order.
pub proof fn lemma_df_compare(f: Fabric, root: CellId, depth: int, a: ConstVal, b: ConstVal, x: int, y: int)
    requires
        0 <= depth <= EVAL_DEPTH_LIMIT,
        cell_at(f, root.0 as int) is Some,
        cell_at(f, root.0 as int)->0.kind is Cmp,
        df_eval(f, cell_at(f, root.0 as int)->0.operands[0], depth + 1) == Some(a),
        df_eval(f, cell_at(f, root.0 as int)->0.operands[1], depth + 1) == Some(b),
        (a matches ConstVal::I32(p) && b matches ConstVal::I32(q) && p == x && q == y) || (a matches ConstVal::I64(p)
            && b matches ConstVal::I64(q) && p == x && q == y),
    ensures
        ({
            let op = cell_at(f, root.0 as int)->0.kind->Cmp_op;
            let r = df_eval(f, root, depth);
            &&& op is Eq ==> r == Some(ConstVal::I1(x == y))
            &&& op is Ne ==> r == Some(ConstVal::I1(x != y))
            &&& op is Lt ==> r == Some(ConstVal::I1(x < y))
            &&& op is Le ==> r == Some(ConstVal::I1(x <= y))
            &&& op is Gt ==> r == Some(ConstVal::I1(x > y))
            &&& op is Ge ==> r == Some(ConstVal::I1(x >= y))
        }),
{
}

/// The dataflow value of a comparison of two `i1` values `x` (first
/// operand) and `y` (second) is `x == y` under `eq`, `x != y` under `ne`,
/// and none under an ordered comparison.
pub proof fn lemma_df_compare_i1(f: Fabric, root: CellId, depth: int, x: bool, y: bool)
    requires
        0 <= depth <= EVAL_DEPTH_LIMIT,
        cell_at(f, root.0 as int) is Some,
        cell_at(f, root.0 as int)->0.kind is Cmp,
        df_eval(f, cell_at(f, root.0 as int)->0.operands[0], depth + 1) == Some(ConstVal::I1(x)),
        df_eval(f, cell_at(f, root.0 as int)->0.operands[1], depth + 1) == Some(ConstVal::I1(y)),
    ensures
        ({
            let op = cell_at(f, root.0 as int)->0.kind->Cmp_op;
            let r = df_eval(f, root, depth);
            &&& op is Eq ==> r == Some(ConstVal::I1(x == y))
            &&& op is Ne ==> r == Some(ConstVal::I1(x != y))
            &&& (op is Lt || op is Le || op is Gt || op is Ge) ==> r is None
        }),
{
}

/// An arith or compare cell whose operands evaluate to values of two
/// different types has no dataflow value.
pub proof fn lemma_df_mixed(f: Fabric, root: CellId, depth: int, a: ConstVal, b: ConstVal)
    requires
        0 <= depth <= EVAL_DEPTH_LIMIT,
        cell_at(f, root.0 as int) is Some,
        cell_at(f, root.0 as int)->0.kind is Arith || cell_at(f, root.0 as int)->0.kind is Cmp,
        df_eval(f, cell_at(f, root.0 as int)->0.operands[0], depth + 1) == Some(a),
        df_eval(f, cell_at(f, root.0 as int)->0.operands[1], depth + 1) == Some(b),
        const_ty(a) != const_ty(b),
    ensures
        df_eval(f, root, depth) is None,
{
}

/// Both values are floats: combining them is float arithmetic.
pub open spec fn float_pair(a: Option<ConstVal>, b: Option<ConstVal>) -> bool {
    (a matches Some(ConstVal::F64(_))) && (b matches Some(ConstVal::F64(_)))
}

/// The evaluation of `root` can run here: every arith or compare cell it
/// reaches names two operands (the evaluator reads both slots), and none
/// combines two float values (float arithmetic is outside this library).
pub open spec fn df_safe(f: Fabric, root: CellId, depth: int) -> bool
    decreases EVAL_DEPTH_LIMIT + 1 - depth,
{
    if depth > EVAL_DEPTH_LIMIT {
        true
    } else {
        match cell_at(f, root.0 as int) {
            None => true,
            Some(c) => if c.kind is Arith || c.kind is Cmp {
                &&& c.operands.len() >= 2
                &&& df_safe(f, c.operands[0], depth + 1)
                &&& df_eval(f, c.operands[0], depth + 1) is Some ==> {
                    &&& df_safe(f, c.operands[1], depth + 1)
                    &&& !float_pair(df_eval(f, c.operands[0], depth + 1), df_eval(f, c.operands[1], depth + 1))
                }
            } else {
                true
            },
        }
    }
}

pub(crate) fn arith_exec(op: ArithOp, a: ConstVal, b: ConstVal) -> (r: Option<ConstVal>)
    ensures
        r == arith_value(op, a, b),
{
    match (a, b) {
        (ConstVal::I32(x), ConstVal::I32(y)) => {
            let v = match op {
                ArithOp::Add => x.checked_add(y),
                ArithOp::Sub => x.checked_sub(y),
                ArithOp::Mul => x.checked_mul(y),
                ArithOp::Div => x.checked_div(y),
            };
            match v {
                Some(v) => Some(ConstVal::I32(v)),
                None => None,
            }
        },
        (ConstVal::I64(x), ConstVal::I64(y)) => {
            let v = match op {
                ArithOp::Add => x.checked_add(y),
                ArithOp::Sub => x.checked_sub(y),
                ArithOp::Mul => x.checked_mul(y),
                ArithOp::Div => x.checked_div(y),
            };
            match v {
                Some(v) => Some(ConstVal::I64(v)),
                None => None,
            }
        },
        _ => None,
    }
}

fn order_i64(op: CmpOp, x: i64, y: i64) -> (r: bool)
    ensures
        r == int_order(op, x as int, y as int),
{
    match op {
        CmpOp::Eq => x == y,
        CmpOp::Ne => x != y,
        CmpOp::Lt => x < y,
        CmpOp::Le => x <= y,
        CmpOp::Gt => x > y,
        CmpOp::Ge => x >= y,
    }
}

pub(crate) fn compare_exec(op: CmpOp, a: ConstVal, b: ConstVal) -> (r: Option<bool>)
    ensures
        r == compare_value(op, a, b),
{
    match (a, b) {
        (ConstVal::I1(x), ConstVal::I1(y)) => match op {
            CmpOp::Eq => Some(x == y),
            CmpOp::Ne => Some(x != y),
            _ => None,
        },
        (ConstVal::I32(x), ConstVal::I32(y)) => Some(order_i64(op, x as i64, y as i64)),
        (ConstVal::I64(x), ConstVal::I64(y)) => Some(order_i64(op, x, y)),
        _ => None,
    }
}

/// Ground-truth dataflow evaluation with checked integer arithmetic: the
/// wrongness oracle that shows a mutant changed a value. Params, phis
/// and terminators have no value; float arithmetic is outside its
/// domain.
pub fn eval_dataflow(f: &Fabric, root: CellId, depth: u32) -> (r: Option<ConstVal>)
    requires
        df_safe(*f, root, depth as int),
    ensures
        r == df_eval(*f, root, depth as int),
    decreases EVAL_DEPTH_LIMIT + 1 - depth,
{
    if depth > EVAL_DEPTH_LIMIT {
        return None;
    }
    let c = match f.cell(root) {
        Some(c) => c,
        None => return None,
    };
    match &c.kind {
        CellKind::Const { val, .. } => Some(*val),
        CellKind::Arith { op, .. } => {
            let a = match eval_dataflow(f, c.operands[0], depth + 1) {
                Some(a) => a,
                None => return None,
            };
            let b = match eval_dataflow(f, c.operands[1], depth + 1) {
                Some(b) => b,
                None => return None,
            };
            arith_exec(*op, a, b)
        },
        CellKind::Cmp { op } => {
            let a = match eval_dataflow(f, c.operands[0], depth + 1) {
                Some(a) => a,
                None => return None,
            };
            let b = match eval_dataflow(f, c.operands[1], depth + 1) {
                Some(b) => b,
                None => return None,
            };
            match compare_exec(*op, a, b) {
                Some(r) => Some(ConstVal::I1(r)),
                None => None,
            }
        },
        _ => None,
    }
}


/// An ordered comparison: `lt`, `le`, `gt` or `ge`.
pub open spec fn ordered_cmp(op: CmpOp) -> bool {
    op is Lt || op is Le || op is Gt || op is Ge
}

/// Cell `i` of `f` is a site for the input mutation `kind`.
pub open spec fn sem_site(f: Fabric, kind: SemKind, i: int) -> bool {
    match cell_at(f, i) {
        None => false,
        Some(c) => match kind {
            SemKind::ConstOffByOne => c.kind is Const && c.kind->Const_ty != Type::I1,
            SemKind::ArithSubDivSwap => (c.kind is Arith && (c.kind->Arith_op is Sub || c.kind->Arith_op is Div))
                && c.operands.len() == 2 && c.operands[0] != c.operands[1],
            SemKind::CmpOrderedSwap => (c.kind is Cmp && ordered_cmp(c.kind->Cmp_op)) && c.operands.len() == 2
                && c.operands[0] != c.operands[1],
            SemKind::RetValueSwap => c.kind is Ret && c.operands.len() == 1,
            SemKind::BranchTargetSwap => c.kind is Branch && c.kind->then_r != c.kind->else_r,
            SemKind::PhiOperandRebind => c.kind is Phi,
            SemKind::JoinDropWithEdge => c.kind is Branch && c.kind->then_r != c.kind->else_r,
            SemKind::StageTamperControl => false,
        },
    }
}

/// A constant moved one step: `x + d`, or `x - d` where that overflows;
/// `None` for `i1` and `f64` constants.
pub open spec fn bumped(v: ConstVal, d: int) -> Option<ConstVal> {
    match v {
        ConstVal::I32(x) => if i32::MIN <= x + d <= i32::MAX {
            Some(ConstVal::I32((x + d) as i32))
        } else if i32::MIN <= x - d <= i32::MAX {
            Some(ConstVal::I32((x - d) as i32))
        } else {
            None
        },
        ConstVal::I64(x) => if i64::MIN <= x + d <= i64::MAX {
            Some(ConstVal::I64((x + d) as i64))
        } else if i64::MIN <= x - d <= i64::MAX {
            Some(ConstVal::I64((x - d) as i64))
        } else {
            None
        },
        _ => None,
    }
}

/// Cell `w` of `f` may replace the single value of ret `v`: another
/// value cell of the ret's region with the value's type.
pub open spec fn ret_replacement(f: Fabric, v: int, w: int) -> bool {
    let c = cell_at(f, v)->0;
    let cur = c.operands[0].0 as int;
    &&& cell_at(f, w) is Some
    &&& cell_at(f, w)->0.region == c.region
    &&& w != cur
    &&& !kind_is_terminator(cell_at(f, w)->0.kind)
    &&& cell_at(f, cur) is Some
    &&& cell_ty(f, cell_at(f, cur)->0) is Some
    &&& cell_ty(f, cell_at(f, w)->0) == cell_ty(f, cell_at(f, cur)->0)
}

/// Cell `w` of `f` may replace operand `s` of phi `v`: another value
/// cell, outside the phi's region, defined in the join region of slot `s`
/// or in the entry, with the operand's type.
pub open spec fn phi_replacement(f: Fabric, v: int, s: int, w: int) -> bool {
    let c = cell_at(f, v)->0;
    let cur = c.operands[s].0 as int;
    &&& 0 <= s < c.kind->joins.len()
    &&& cell_at(f, w) is Some
    &&& w != cur
    &&& cell_at(f, w)->0.region != c.region
    &&& (cell_at(f, w)->0.region == c.kind->joins[s] || cell_at(f, w)->0.region.0 == 0)
    &&& !kind_is_terminator(cell_at(f, w)->0.kind)
    &&& cell_at(f, cur) is Some
    &&& cell_ty(f, cell_at(f, cur)->0) is Some
    &&& cell_ty(f, cell_at(f, w)->0) == cell_ty(f, cell_at(f, cur)->0)
}

/// The first position of `x` in `s` (when it occurs).
pub open spec fn first_pos(s: Seq<RegionId>, x: RegionId) -> int {
    choose|k: int| 0 <= k < s.len() && s[k] == x && forall|j: int| 0 <= j < k ==> s[j] != x
}

/// Phi `p` of `f` after the branch of `v` dropped its else arm: a phi of
/// the dropped arm that joins on the branch's region loses that join
/// (the first one) and the operand in its slot.
pub open spec fn stripped_phi(f: Fabric, v: int, p: int) -> Option<CellV> {
    let b = cell_at(f, v)->0;
    let src = b.region;
    let arm = b.kind->else_r;
    match cell_at(f, p) {
        Some(c) => if c.region == arm && c.kind is Phi && c.kind->joins.contains(src) {
            let pos = first_pos(c.kind->joins, src);
            Some(CellV {
                kind: KindV::Phi { joins: c.kind->joins.remove(pos) },
                operands: if c.operands.len() > pos { c.operands.remove(pos) } else { c.operands },
                ..c
            })
        } else {
            Some(c)
        },
        None => None,
    }
}

/// What the input mutation `kind` made of site `v` of `f`: `g`.
pub open spec fn sem_mutated(f: Fabric, g: Fabric, kind: SemKind, v: int) -> bool {
    let c = cell_at(f, v)->0;
    match kind {
        SemKind::ConstOffByOne => exists|d: int| (d == 1 || d == -1) && #[trigger] bumped(c.kind->Const_val, d) is Some
            && cell_replaced(f, g, v, Some(CellV {
                kind: KindV::Const { ty: c.kind->Const_ty, val: bumped(c.kind->Const_val, d)->0 },
                ..c
            })),
        SemKind::ArithSubDivSwap | SemKind::CmpOrderedSwap => cell_replaced(f, g, v, Some(CellV {
            operands: seq![c.operands[1], c.operands[0]],
            ..c
        })),
        SemKind::RetValueSwap => exists|w: int| #[trigger] ret_replacement(f, v, w) && cell_replaced(f, g, v, Some(CellV {
            operands: seq![CellId(w as u32)],
            ..c
        })),
        SemKind::BranchTargetSwap => cell_replaced(f, g, v, Some(CellV {
            kind: KindV::Branch { then_r: c.kind->else_r, else_r: c.kind->then_r },
            ..c
        })),
        SemKind::PhiOperandRebind => exists|s: int, w: int| #[trigger] phi_replacement(f, v, s, w) && cell_replaced(f, g, v, Some(CellV {
            operands: c.operands.update(s, CellId(w as u32)),
            ..c
        })),
        SemKind::JoinDropWithEdge => {
            &&& g.regions@.len() == f.regions@.len()
            &&& forall|r: int| 0 <= r < f.regions@.len() ==> (#[trigger] g.regions@[r]).name@ == f.regions@[r].name@
                && g.regions@[r].cells@ == f.regions@[r].cells@
            &&& g.slab@.len() == f.slab@.len()
            &&& cell_at(g, v) == Some(CellV { kind: KindV::Jump { target: c.kind->then_r }, operands: Seq::empty(), ..c })
            &&& forall|p: int| p != v ==> #[trigger] cell_at(g, p) == stripped_phi(f, v, p)
        },
        SemKind::StageTamperControl => false,
    }
}

/// Every phi has an operand for each of its joins.
pub open spec fn phis_complete(f: Fabric) -> bool {
    forall|i: int| #[trigger] cell_at(f, i) is Some && cell_at(f, i)->0.kind is Phi
        ==> cell_at(f, i)->0.operands.len() >= cell_at(f, i)->0.kind->joins.len()
}


/// Why the input mutation `kind` may find nothing to do on `f`: no site,
/// or (for the kinds that need more than a site) a site without a
/// bumpable constant, a replacement value or a known operand type.
pub open spec fn sem_nothing(f: Fabric, kind: SemKind) -> bool {
    ||| kind is StageTamperControl
    ||| !(exists|v: int| #[trigger] sem_site(f, kind, v))
    ||| kind is ConstOffByOne && exists|v: int| #[trigger] sem_site(f, kind, v) && bumped(cell_at(f, v)->0.kind->Const_val, 1) is None
    ||| kind is RetValueSwap && exists|v: int| #[trigger] sem_site(f, kind, v) && !(exists|w: int| #[trigger] ret_replacement(f, v, w))
    ||| kind is PhiOperandRebind && exists|v: int| #[trigger] sem_site(f, kind, v) && phi_stuck(f, v)
}

/// Phi `v` of `f` cannot be rebound: some slot's operand has no known
/// type, or no slot has a replacement.
pub open spec fn phi_stuck(f: Fabric, v: int) -> bool {
    let c = cell_at(f, v)->0;
    ||| exists|s: int| 0 <= s < c.kind->joins.len() && (cell_at(f, #[trigger] c.operands[s].0 as int) is None || cell_ty(
        f,
        cell_at(f, c.operands[s].0 as int)->0,
    ) is None)
    ||| forall|s: int, w: int| !#[trigger] phi_replacement(f, v, s, w)
}

/// An input mutation always changes the cell at its site: a bumped
/// constant differs from the original, the swapped operands, the swapped
/// branch targets and a rebound ret or phi operand all differ from what
/// was there, and a dropped arm turns the branch into a jump.
pub proof fn lemma_sem_mutation_changes(f: Fabric, g: Fabric, kind: SemKind, v: int)
    requires
        content_wf(f),
        phis_complete(f),
        sem_site(f, kind, v),
        sem_mutated(f, g, kind, v),
    ensures
        cell_at(g, v) != cell_at(f, v),
{
    let c = cell_at(f, v)->0;
    match kind {
        SemKind::ConstOffByOne => {
            let d = choose|d: int| (d == 1 || d == -1) && #[trigger] bumped(c.kind->Const_val, d) is Some && cell_replaced(
                f,
                g,
                v,
                Some(CellV { kind: KindV::Const { ty: c.kind->Const_ty, val: bumped(c.kind->Const_val, d)->0 }, ..c }),
            );
            assert(bumped(c.kind->Const_val, d)->0 != c.kind->Const_val);
            assert(cell_at(g, v)->0.kind->Const_val != c.kind->Const_val);
        },
        SemKind::ArithSubDivSwap | SemKind::CmpOrderedSwap => {
            assert(cell_at(g, v)->0.operands[0] == c.operands[1]);
        },
        SemKind::RetValueSwap => {
            let w = choose|w: int| #[trigger] ret_replacement(f, v, w) && cell_replaced(f, g, v, Some(CellV {
                operands: seq![CellId(w as u32)],
                ..c
            }));
            assert(cell_at(g, v)->0.operands[0] != c.operands[0]);
        },
        SemKind::PhiOperandRebind => {
            let (s, w) = choose|s: int, w: int| #[trigger] phi_replacement(f, v, s, w) && cell_replaced(f, g, v, Some(CellV {
                operands: c.operands.update(s, CellId(w as u32)),
                ..c
            }));
            assert(cell_at(f, v) is Some && cell_at(f, v)->0.kind is Phi);
            assert(cell_at(g, v)->0.operands[s] != c.operands[s]);
        },
        _ => {},
    }
}

fn is_site(g: &Fabric, kind: SemKind, id: CellId) -> (b: bool)
    ensures
        b == sem_site(*g, kind, id.0 as int),
{
    let c = match g.cell(id) {
        Some(c) => c,
        None => return false,
    };
    match kind {
        SemKind::ConstOffByOne => match c.kind {
            CellKind::Const { ty, .. } => ty != Type::I1,
            _ => false,
        },
        SemKind::ArithSubDivSwap => match c.kind {
            CellKind::Arith { op: ArithOp::Sub, .. } | CellKind::Arith { op: ArithOp::Div, .. } => c.operands.len() == 2
                && c.operands[0] != c.operands[1],
            _ => false,
        },
        SemKind::CmpOrderedSwap => match c.kind {
            CellKind::Cmp { op: CmpOp::Lt } | CellKind::Cmp { op: CmpOp::Le } | CellKind::Cmp { op: CmpOp::Gt } | CellKind::Cmp {
                op: CmpOp::Ge,
            } => c.operands.len() == 2 && c.operands[0] != c.operands[1],
            _ => false,
        },
        SemKind::RetValueSwap => match c.kind {
            CellKind::Ret => c.operands.len() == 1,
            _ => false,
        },
        SemKind::BranchTargetSwap | SemKind::JoinDropWithEdge => match c.kind {
            CellKind::Branch { then_r, else_r } => then_r != else_r,
            _ => false,
        },
        SemKind::PhiOperandRebind => match c.kind {
            CellKind::Phi { .. } => true,
            _ => false,
        },
        SemKind::StageTamperControl => false,
    }
}

/// The sites of `kind` in `g`, in id order.
fn sites(g: &Fabric, kind: SemKind) -> (v: Vec<CellId>)
    requires
        g.slab@.len() <= u32::MAX,
    ensures
        forall|k: int| 0 <= k < v@.len() ==> sem_site(*g, kind, (#[trigger] v@[k]).0 as int),
        forall|i: int| #[trigger] sem_site(*g, kind, i) ==> v@.contains(CellId(i as u32)),
{
    let ids = g.cells();
    let mut v: Vec<CellId> = Vec::new();
    let mut k: usize = 0;
    while k < ids.len()
        invariant
            k <= ids@.len(),
            forall|id: CellId| #[trigger] ids@.contains(id) <==> cell_at(*g, id.0 as int) is Some,
            forall|q: int| 0 <= q < v@.len() ==> sem_site(*g, kind, (#[trigger] v@[q]).0 as int),
            forall|j: int| 0 <= j < k && sem_site(*g, kind, (#[trigger] ids@[j]).0 as int) ==> v@.contains(ids@[j]),
        decreases ids@.len() - k,
    {
        let id = ids[k];
        let ghost v0 = v@;
        if is_site(g, kind, id) {
            v.push(id);
        }
        proof {
            assert forall|j: int| 0 <= j < k + 1 && sem_site(*g, kind, (#[trigger] ids@[j]).0 as int) implies v@.contains(ids@[j]) by {
                if j < k {
                    let q = choose|q: int| 0 <= q < v0.len() && v0[q] == ids@[j];
                    assert(v@[q] == v0[q]);
                } else {
                    assert(v@[v@.len() - 1] == id);
                }
            }
        }
        k = k + 1;
    }
    proof {
        assert forall|i: int| #[trigger] sem_site(*g, kind, i) implies v@.contains(CellId(i as u32)) by {
            assert(ids@.contains(CellId(i as u32)));
            let j = choose|j: int| 0 <= j < ids@.len() && ids@[j] == CellId(i as u32);
            assert(sem_site(*g, kind, ids@[j].0 as int));
        }
    }
    v
}

proof fn lemma_types_same(f: Fabric, g: Fabric)
    requires
        forall|j: int| #[trigger] cell_at(g, j) == cell_at(f, j),
        g.slab@.len() == f.slab@.len(),
    ensures
        forall|c: CellV| #[trigger] cell_ty(g, c) == cell_ty(f, c),
        forall|c: CellV| #[trigger] ty_walk_ends(g, c) == ty_walk_ends(f, c),
{
    assert forall|c: CellV| #[trigger] cell_ty(g, c) == cell_ty(f, c) by {
        lemma_walk_same(f, g, c.kind, c.operands, f.slab@.len());
    }
    assert forall|c: CellV| #[trigger] ty_walk_ends(g, c) == ty_walk_ends(f, c) by {
        lemma_walk_same(f, g, c.kind, c.operands, f.slab@.len());
    }
}

/// A constant moved one step, checked.
fn bump_val(v: ConstVal, d: i32) -> (r: Option<ConstVal>)
    requires
        d == 1 || d == -1,
    ensures
        r == bumped(v, d as int),
{
    match v {
        ConstVal::I32(x) => match x.checked_add(d) {
            Some(y) => Some(ConstVal::I32(y)),
            None => match x.checked_sub(d) {
                Some(y) => Some(ConstVal::I32(y)),
                None => None,
            },
        },
        ConstVal::I64(x) => match x.checked_add(d as i64) {
            Some(y) => Some(ConstVal::I64(y)),
            None => match x.checked_sub(d as i64) {
                Some(y) => Some(ConstVal::I64(y)),
                None => None,
            },
        },
        _ => None,
    }
}

/// The copy `g` of `f`, as the mutation helpers receive it.
pub open spec fn fresh(f: Fabric, g: Fabric) -> bool {
    &&& same_content(f, g)
    &&& g.wf()
    &&& f.wf()
    &&& types_known(f)
    &&& phis_complete(f)
}

fn bump_site(f: &Fabric, g: &mut Fabric, v: CellId, rng: &mut Rng) -> (r: bool)
    requires
        fresh(*f, *old(g)),
        sem_site(*f, SemKind::ConstOffByOne, v.0 as int),
    ensures
        final(g).wf(),
        r ==> sem_mutated(*f, *final(g), SemKind::ConstOffByOne, v.0 as int),
        !r ==> bumped(cell_at(*f, v.0 as int)->0.kind->Const_val, 1) is None,
{
    proof {
        assert forall|j: int| #[trigger] cell_at(*g, j) == cell_at(*f, j) by {}
    }
    let (ty, val) = match &g.cell(v).unwrap().kind {
        CellKind::Const { ty, val } => (*ty, *val),
        _ => return false,
    };
    match val {
        ConstVal::I32(_) | ConstVal::I64(_) => {},
        _ => {
            proof {
                assert(bumped(val, 1) is None);
            }
            return false;
        },
    }
    let d: i32 = if rng.chance(50) { 1 } else { -1 };
    let nv = match bump_val(val, d) {
        Some(x) => x,
        None => {
            proof {
                assert(bumped(val, 1) is None);
            }
            return false;
        },
    };
    g.set_kind(v, CellKind::Const { ty, val: nv });
    proof {
        assert(bumped(val, d as int) is Some);
        assert(cell_replaced(*f, *g, v.0 as int, Some(CellV {
            kind: KindV::Const { ty: cell_at(*f, v.0 as int)->0.kind->Const_ty, val: bumped(cell_at(*f, v.0 as int)->0.kind->Const_val, d as int)->0 },
            ..cell_at(*f, v.0 as int)->0
        })));
    }
    true
}

fn swap_site(f: &Fabric, g: &mut Fabric, v: CellId, Ghost(kind): Ghost<SemKind>)
    requires
        fresh(*f, *old(g)),
        kind is ArithSubDivSwap || kind is CmpOrderedSwap,
        sem_site(*f, kind, v.0 as int),
    ensures
        final(g).wf(),
        sem_mutated(*f, *final(g), kind, v.0 as int),
{
    proof {
        assert forall|j: int| #[trigger] cell_at(*g, j) == cell_at(*f, j) by {}
    }
    let c = g.cell(v).unwrap();
    let a = c.operands[0];
    let b = c.operands[1];
    g.retarget(v, 0, b);
    g.retarget(v, 1, a);
    proof {
        let cv = cell_at(*f, v.0 as int)->0;
        assert(cell_at(*g, v.0 as int)->0.operands =~= seq![cv.operands[1], cv.operands[0]]);
        assert(cell_replaced(*f, *g, v.0 as int, Some(CellV { operands: seq![cv.operands[1], cv.operands[0]], ..cv })));
    }
}

fn branch_swap_site(f: &Fabric, g: &mut Fabric, v: CellId)
    requires
        fresh(*f, *old(g)),
        sem_site(*f, SemKind::BranchTargetSwap, v.0 as int),
    ensures
        final(g).wf(),
        sem_mutated(*f, *final(g), SemKind::BranchTargetSwap, v.0 as int),
{
    proof {
        assert forall|j: int| #[trigger] cell_at(*g, j) == cell_at(*f, j) by {}
    }
    match g.cell(v).unwrap().kind {
        CellKind::Branch { then_r, else_r } => {
            g.set_kind(v, CellKind::Branch { then_r: else_r, else_r: then_r });
        },
        _ => {},
    }
}

fn ret_swap_site(f: &Fabric, g: &mut Fabric, v: CellId, rng: &mut Rng) -> (r: bool)
    requires
        fresh(*f, *old(g)),
        sem_site(*f, SemKind::RetValueSwap, v.0 as int),
    ensures
        final(g).wf(),
        r ==> sem_mutated(*f, *final(g), SemKind::RetValueSwap, v.0 as int),
        !r ==> !(exists|w: int| #[trigger] ret_replacement(*f, v.0 as int, w)),
{
    proof {
        assert forall|j: int| #[trigger] cell_at(*g, j) == cell_at(*f, j) by {}
        lemma_types_same(*f, *g);
    }
    let ghost vi = v.0 as int;
    let c = g.cell(v).unwrap();
    let region = c.region;
    let cur = c.operands[0];
    proof {
        if cell_at(*g, cur.0 as int) is Some {
            assert(ty_walk_ends(*f, cell_at(*f, cur.0 as int)->0));
        }
    }
    let ty = match g.ty_of(cur) {
        Some(t) => t,
        None => return false,
    };
    let ids = g.cells();
    let mut pool: Vec<CellId> = Vec::new();
    let mut k: usize = 0;
    while k < ids.len()
        invariant
            k <= ids@.len(),
            forall|id: CellId| #[trigger] ids@.contains(id) <==> cell_at(*g, id.0 as int) is Some,
            forall|j: int| #[trigger] cell_at(*g, j) == cell_at(*f, j),
            forall|c: CellV| #[trigger] cell_ty(*g, c) == cell_ty(*f, c),
            forall|c: CellV| #[trigger] ty_walk_ends(*g, c) == ty_walk_ends(*f, c),
            types_known(*f),
            vi == v.0,
            cell_at(*f, vi) is Some,
            region == cell_at(*f, vi)->0.region,
            cur == cell_at(*f, vi)->0.operands[0],
            cell_at(*f, cur.0 as int) is Some,
            cell_ty(*f, cell_at(*f, cur.0 as int)->0) == Some(ty),
            forall|q: int| 0 <= q < pool@.len() ==> ret_replacement(*f, vi, (#[trigger] pool@[q]).0 as int),
            forall|j: int| 0 <= j < k && ret_replacement(*f, vi, (#[trigger] ids@[j]).0 as int) ==> pool@.contains(ids@[j]),
        decreases ids@.len() - k,
    {
        let id = ids[k];
        let ghost p0 = pool@;
        proof {
            assert(ids@.contains(id));
            assert(ty_walk_ends(*f, cell_at(*f, id.0 as int)->0));
        }
        let cc = g.cell(id).unwrap();
        if cc.region == region && id != cur && g.ty_of(id) == Some(ty) && cc.produces_value() {
            pool.push(id);
        }
        proof {
            assert forall|j: int| 0 <= j < k + 1 && ret_replacement(*f, vi, (#[trigger] ids@[j]).0 as int) implies pool@.contains(ids@[j]) by {
                if j < k {
                    let q = choose|q: int| 0 <= q < p0.len() && p0[q] == ids@[j];
                    assert(pool@[q] == p0[q]);
                } else {
                    assert(pool@[pool@.len() - 1] == id);
                }
            }
        }
        k = k + 1;
    }
    if pool.len() == 0 {
        proof {
            if exists|w: int| #[trigger] ret_replacement(*f, vi, w) {
                let w = choose|w: int| #[trigger] ret_replacement(*f, vi, w);
                assert(ids@.contains(CellId(w as u32)));
                let j = choose|j: int| 0 <= j < ids@.len() && ids@[j] == CellId(w as u32);
                assert(ret_replacement(*f, vi, ids@[j].0 as int));
            }
        }
        return false;
    }
    let repl = pick_id(rng, &pool);
    proof {
        let q = choose|q: int| 0 <= q < pool@.len() && pool@[q] == repl;
        assert(ret_replacement(*f, vi, pool@[q].0 as int));
    }
    g.retarget(v, 0, repl);
    proof {
        let cv = cell_at(*f, vi)->0;
        assert(cell_at(*g, vi)->0.operands =~= seq![CellId(((repl.0 as int) as u32))]);
        assert(cell_replaced(*f, *g, vi, Some(CellV { operands: seq![CellId(((repl.0 as int) as u32))], ..cv })));
    }
    true
}

proof fn lemma_first_pos(s: Seq<RegionId>, x: RegionId, k: int)
    requires
        0 <= k < s.len(),
        s[k] == x,
        forall|j: int| 0 <= j < k ==> s[j] != x,
    ensures
        first_pos(s, x) == k,
{
    let p = first_pos(s, x);
    assert(0 <= p < s.len() && s[p] == x && forall|j: int| 0 <= j < p ==> s[j] != x);
    if p < k {
        assert(s[p] != x);
    }
    if k < p {
        assert(s[k] != x);
    }
}

fn region_ids_without(v: &Vec<RegionId>, pos: usize) -> (w: Vec<RegionId>)
    requires
        pos < v@.len(),
    ensures
        w@ == v@.remove(pos as int),
{
    let mut w: Vec<RegionId> = Vec::new();
    let mut k: usize = 0;
    while k < v.len()
        invariant
            k <= v@.len(),
            pos < v@.len(),
            w@ == (if k <= pos { v@.subrange(0, k as int) } else { v@.subrange(0, pos as int) + v@.subrange(pos + 1, k as int) }),
        decreases v@.len() - k,
    {
        if k != pos {
            w.push(v[k]);
        }
        k = k + 1;
        proof {
            if k <= pos {
                assert(w@ =~= v@.subrange(0, k as int));
            } else {
                assert(w@ =~= v@.subrange(0, pos as int) + v@.subrange(pos + 1, k as int));
            }
        }
    }
    assert(w@ =~= v@.remove(pos as int));
    w
}

fn cell_ids_without(v: &Vec<CellId>, pos: usize) -> (w: Vec<CellId>)
    requires
        pos < v@.len(),
    ensures
        w@ == v@.remove(pos as int),
{
    let mut w: Vec<CellId> = Vec::new();
    let mut k: usize = 0;
    while k < v.len()
        invariant
            k <= v@.len(),
            pos < v@.len(),
            w@ == (if k <= pos { v@.subrange(0, k as int) } else { v@.subrange(0, pos as int) + v@.subrange(pos + 1, k as int) }),
        decreases v@.len() - k,
    {
        if k != pos {
            w.push(v[k]);
        }
        k = k + 1;
        proof {
            if k <= pos {
                assert(w@ =~= v@.subrange(0, k as int));
            } else {
                assert(w@ =~= v@.subrange(0, pos as int) + v@.subrange(pos + 1, k as int));
            }
        }
    }
    assert(w@ =~= v@.remove(pos as int));
    w
}

fn join_drop_site(f: &Fabric, g: &mut Fabric, v: CellId)
    requires
        fresh(*f, *old(g)),
        sem_site(*f, SemKind::JoinDropWithEdge, v.0 as int),
    ensures
        final(g).wf(),
        sem_mutated(*f, *final(g), SemKind::JoinDropWithEdge, v.0 as int),
{
    proof {
        assert forall|j: int| #[trigger] cell_at(*g, j) == cell_at(*f, j) by {}
    }
    let ghost vi = v.0 as int;
    let ghost g0 = *g;
    let c = g.cell(v).unwrap();
    let src = c.region;
    let (keep, arm) = match c.kind {
        CellKind::Branch { then_r, else_r } => (then_r, else_r),
        _ => return,
    };
    g.set_kind(v, CellKind::Jump { target: keep });
    let none: Vec<CellId> = Vec::new();
    g.set_operands(v, none.as_slice());
    let ids = g.cells();
    let mut phi_ids: Vec<CellId> = Vec::new();
    let mut k: usize = 0;
    while k < ids.len()
        invariant
            k <= ids@.len(),
            forall|id: CellId| #[trigger] ids@.contains(id) <==> cell_at(*g, id.0 as int) is Some,
            forall|a: int, b: int| 0 <= a < b < ids@.len() ==> ids@[a].0 < ids@[b].0,
            forall|q: int| 0 <= q < phi_ids@.len() ==> {
                let p = (#[trigger] phi_ids@[q]).0 as int;
                &&& cell_at(*g, p) is Some
                &&& cell_at(*g, p)->0.region == arm
                &&& cell_at(*g, p)->0.kind is Phi
            },
            forall|a: int, b: int| 0 <= a < b < phi_ids@.len() ==> phi_ids@[a].0 < phi_ids@[b].0,
            forall|q: int| 0 <= q < phi_ids@.len() ==> exists|j: int| 0 <= j < k && #[trigger] ids@[j] == #[trigger] phi_ids@[q],
            forall|j: int| 0 <= j < k && cell_at(*g, (#[trigger] ids@[j]).0 as int) is Some && cell_at(*g, ids@[j].0 as int)->0.region == arm
                && cell_at(*g, ids@[j].0 as int)->0.kind is Phi ==> phi_ids@.contains(ids@[j]),
        decreases ids@.len() - k,
    {
        let id = ids[k];
        let ghost p0 = phi_ids@;
        proof { assert(ids@.contains(id)); }
        let cc = g.cell(id).unwrap();
        let is_phi = match cc.kind {
            CellKind::Phi { .. } => true,
            _ => false,
        };
        if cc.region == arm && is_phi {
            proof {
                if p0.len() > 0 {
                    let j = choose|j: int| 0 <= j < k && ids@[j] == p0[p0.len() - 1];
                    assert(ids@[j].0 < ids@[k as int].0);
                }
            }
            phi_ids.push(id);
        }
        proof {
            assert forall|q: int| 0 <= q < phi_ids@.len() implies exists|j: int| 0 <= j < k + 1 && #[trigger] ids@[j] == #[trigger] phi_ids@[q] by {
                if q < p0.len() {
                    assert(phi_ids@[q] == p0[q]);
                    let j = choose|j: int| 0 <= j < k && ids@[j] == p0[q];
                } else {
                    assert(ids@[k as int] == phi_ids@[q]);
                }
            }
            assert forall|j: int| 0 <= j < k + 1 && cell_at(*g, (#[trigger] ids@[j]).0 as int) is Some && cell_at(*g, ids@[j].0 as int)->0.region
                == arm && cell_at(*g, ids@[j].0 as int)->0.kind is Phi implies phi_ids@.contains(ids@[j]) by {
                if j < k {
                    let q = choose|q: int| 0 <= q < p0.len() && p0[q] == ids@[j];
                    assert(phi_ids@[q] == p0[q]);
                } else {
                    assert(phi_ids@[phi_ids@.len() - 1] == id);
                }
            }
        }
        k = k + 1;
    }
    let ghost g1 = *g;
    proof {
        assert forall|p: int| p != vi implies #[trigger] cell_at(g1, p) == cell_at(*f, p) by {}
    }
    let mut q: usize = 0;
    while q < phi_ids.len()
        invariant
            q <= phi_ids@.len(),
            g.wf(),
            fresh(*f, g0),
            vi == v.0,
            cell_at(*f, vi) is Some,
            src == cell_at(*f, vi)->0.region,
            arm == cell_at(*f, vi)->0.kind->else_r,
            cell_at(*f, vi)->0.kind is Branch,
            g.slab@.len() == f.slab@.len(),
            g.regions@.len() == f.regions@.len(),
            forall|r: int| 0 <= r < f.regions@.len() ==> (#[trigger] g.regions@[r]).name@ == f.regions@[r].name@
                && g.regions@[r].cells@ == f.regions@[r].cells@,
            cell_at(*g, vi) == cell_at(g1, vi),
            forall|a: int| 0 <= a < phi_ids@.len() ==> {
                let p = (#[trigger] phi_ids@[a]).0 as int;
                &&& cell_at(g1, p) is Some
                &&& cell_at(g1, p)->0.region == arm
                &&& cell_at(g1, p)->0.kind is Phi
                &&& p != vi
            },
            forall|a: int, b: int| 0 <= a < b < phi_ids@.len() ==> phi_ids@[a].0 < phi_ids@[b].0,
            forall|p: int| p != vi ==> #[trigger] cell_at(g1, p) == cell_at(*f, p),
            forall|a: int| 0 <= a < q ==> cell_at(*g, (#[trigger] phi_ids@[a]).0 as int) == stripped_phi(*f, vi, phi_ids@[a].0 as int),
            forall|p: int| p != vi && !(exists|a: int| 0 <= a < q && (#[trigger] phi_ids@[a]).0 == p) ==> #[trigger] cell_at(*g, p) == cell_at(g1, p),
        decreases phi_ids@.len() - q,
    {
        let pid = phi_ids[q];
        let ghost gb = *g;
        let ghost pi = pid.0 as int;
        proof {
            assert(cell_at(*g, pi) == cell_at(g1, pi)) by {
                if exists|a: int| 0 <= a < q && (#[trigger] phi_ids@[a]).0 == pi {
                    let a = choose|a: int| 0 <= a < q && (#[trigger] phi_ids@[a]).0 == pi;
                    assert(phi_ids@[a].0 < phi_ids@[q as int].0);
                }
            }
        }
        let pc = g.cell(pid).unwrap();
        let joins = match &pc.kind {
            CellKind::Phi { joins } => copy_regions(joins),
            _ => Vec::new(),
        };
        let mut pos: usize = 0;
        while pos < joins.len() && joins[pos] != src
            invariant
                pos <= joins@.len(),
                forall|j: int| 0 <= j < pos ==> joins@[j] != src,
            decreases joins@.len() - pos,
        {
            pos = pos + 1;
        }
        if pos < joins.len() {
            let ops = copy_ids(&pc.operands);
            let ops2 = if ops.len() > pos { cell_ids_without(&ops, pos) } else { ops };
            let joins2 = region_ids_without(&joins, pos);
            g.set_kind(pid, CellKind::Phi { joins: joins2 });
            proof {
                assert(cell_at(*g, pi)->0.operands == cell_at(gb, pi)->0.operands);
            }
            g.set_operands(pid, ops2.as_slice());
            proof {
                lemma_first_pos(joins@, src, pos as int);
                assert(joins@.contains(src));
            }
        } else {
            proof {
                assert(!joins@.contains(src));
            }
        }
        proof {
            assert(cell_at(*g, pi) == stripped_phi(*f, vi, pi));
            assert forall|a: int| 0 <= a < q + 1 implies cell_at(*g, (#[trigger] phi_ids@[a]).0 as int) == stripped_phi(
                *f,
                vi,
                phi_ids@[a].0 as int,
            ) by {
                if a < q {
                    assert(phi_ids@[a].0 < phi_ids@[q as int].0);
                }
            }
            assert forall|p: int| p != vi && !(exists|a: int| 0 <= a < q + 1 && (#[trigger] phi_ids@[a]).0 == p) implies #[trigger] cell_at(
                *g,
                p,
            ) == cell_at(g1, p) by {
                assert(p != pi);
                assert(!(exists|a: int| 0 <= a < q && (#[trigger] phi_ids@[a]).0 == p)) by {
                    if exists|a: int| 0 <= a < q && (#[trigger] phi_ids@[a]).0 == p {
                        let a = choose|a: int| 0 <= a < q && (#[trigger] phi_ids@[a]).0 == p;
                        assert(0 <= a < q + 1 && phi_ids@[a].0 == p);
                    }
                }
            }
        }
        q = q + 1;
    }
    proof {
        let cv = cell_at(*f, vi)->0;
        assert(cell_at(*g, vi)->0.operands =~= Seq::<CellId>::empty());
        assert forall|p: int| p != vi implies #[trigger] cell_at(*g, p) == stripped_phi(*f, vi, p) by {
            if exists|a: int| 0 <= a < phi_ids@.len() && (#[trigger] phi_ids@[a]).0 == p {
                let a = choose|a: int| 0 <= a < phi_ids@.len() && (#[trigger] phi_ids@[a]).0 == p;
            } else {
                assert(cell_at(*g, p) == cell_at(g1, p));
                if cell_at(g1, p) is Some && cell_at(g1, p)->0.region == arm && cell_at(g1, p)->0.kind is Phi {
                    assert(ids@.contains(CellId(p as u32)));
                    let j = choose|j: int| 0 <= j < ids@.len() && ids@[j] == CellId(p as u32);
                    assert(phi_ids@.contains(ids@[j]));
                    let a = choose|a: int| 0 <= a < phi_ids@.len() && phi_ids@[a] == ids@[j];
                    assert(phi_ids@[a].0 == p);
                }
            }
        }
    }
}

fn phi_rebind_site(f: &Fabric, g: &mut Fabric, v: CellId, rng: &mut Rng) -> (r: bool)
    requires
        fresh(*f, *old(g)),
        sem_site(*f, SemKind::PhiOperandRebind, v.0 as int),
    ensures
        final(g).wf(),
        r ==> sem_mutated(*f, *final(g), SemKind::PhiOperandRebind, v.0 as int),
        !r ==> phi_stuck(*f, v.0 as int),
{
    proof {
        assert forall|j: int| #[trigger] cell_at(*g, j) == cell_at(*f, j) by {}
        lemma_types_same(*f, *g);
    }
    let ghost vi = v.0 as int;
    let c = g.cell(v).unwrap();
    let phi_region = c.region;
    let joins = match &c.kind {
        CellKind::Phi { joins } => copy_regions(joins),
        _ => return false,
    };
    let operands = copy_ids(&c.operands);
    let entry = match g.entry() {
        Some(e) => e,
        None => return false,
    };
    let ids = g.cells();
    let mut slots: Vec<(usize, Vec<CellId>)> = Vec::new();
    let mut i: usize = 0;
    while i < joins.len()
        invariant
            i <= joins@.len(),
            g.wf(),
            f.slab@.len() <= u32::MAX,
            vi == v.0,
            cell_at(*f, vi) is Some,
            joins@ == cell_at(*f, vi)->0.kind->joins,
            cell_at(*f, vi)->0.kind is Phi,
            operands@ == cell_at(*f, vi)->0.operands,
            operands@.len() >= joins@.len(),
            phi_region == cell_at(*f, vi)->0.region,
            entry.0 == 0,
            types_known(*f),
            forall|id: CellId| #[trigger] ids@.contains(id) <==> cell_at(*g, id.0 as int) is Some,
            forall|j: int| #[trigger] cell_at(*g, j) == cell_at(*f, j),
            forall|c: CellV| #[trigger] cell_ty(*g, c) == cell_ty(*f, c),
            forall|c: CellV| #[trigger] ty_walk_ends(*g, c) == ty_walk_ends(*f, c),
            forall|q: int| 0 <= q < slots@.len() ==> {
                let s = (#[trigger] slots@[q]).0;
                &&& s < joins@.len()
                &&& slots@[q].1@.len() > 0
                &&& forall|t: int| 0 <= t < slots@[q].1@.len() ==> phi_replacement(*f, vi, s as int, (#[trigger] slots@[q].1@[t]).0 as int)
            },
            slots@.len() == 0 ==> forall|s: int, w: int| 0 <= s < i ==> !#[trigger] phi_replacement(*f, vi, s, w),
        decreases joins@.len() - i,
    {
        let j = joins[i];
        let cur = operands[i];
        proof {
            if cell_at(*g, cur.0 as int) is Some {
                assert(ty_walk_ends(*f, cell_at(*f, cur.0 as int)->0));
            }
        }
        let want = match g.ty_of(cur) {
            Some(t) => t,
            None => {
                proof {
                    assert(0 <= i < cell_at(*f, vi)->0.kind->joins.len());
                    assert(cell_at(*f, cell_at(*f, vi)->0.operands[i as int].0 as int) is None || cell_ty(
                        *f,
                        cell_at(*f, cell_at(*f, vi)->0.operands[i as int].0 as int)->0,
                    ) is None);
                }
                return false;
            },
        };
        let mut pool: Vec<CellId> = Vec::new();
        let mut k: usize = 0;
        while k < ids.len()
            invariant
                k <= ids@.len(),
                i < joins@.len(),
                vi == v.0,
                cell_at(*f, vi) is Some,
                joins@ == cell_at(*f, vi)->0.kind->joins,
                cell_at(*f, vi)->0.kind is Phi,
                operands@ == cell_at(*f, vi)->0.operands,
                operands@.len() >= joins@.len(),
                cur == operands@[i as int],
                j == joins@[i as int],
                phi_region == cell_at(*f, vi)->0.region,
                entry.0 == 0,
                types_known(*f),
                cell_at(*f, cur.0 as int) is Some,
                cell_ty(*f, cell_at(*f, cur.0 as int)->0) == Some(want),
                forall|id: CellId| #[trigger] ids@.contains(id) <==> cell_at(*g, id.0 as int) is Some,
                forall|j: int| #[trigger] cell_at(*g, j) == cell_at(*f, j),
                forall|c: CellV| #[trigger] cell_ty(*g, c) == cell_ty(*f, c),
                forall|c: CellV| #[trigger] ty_walk_ends(*g, c) == ty_walk_ends(*f, c),
                forall|t: int| 0 <= t < pool@.len() ==> phi_replacement(*f, vi, i as int, (#[trigger] pool@[t]).0 as int),
                pool@.len() == 0 ==> forall|jj: int| 0 <= jj < k ==> !phi_replacement(*f, vi, i as int, (#[trigger] ids@[jj]).0 as int),
            decreases ids@.len() - k,
        {
            let id = ids[k];
            proof {
                assert(ids@.contains(id));
                assert(ty_walk_ends(*f, cell_at(*f, id.0 as int)->0));
            }
            let cc = g.cell(id).unwrap();
            if id != cur && cc.region != phi_region && (cc.region == j || cc.region == entry) && cc.produces_value()
                && g.ty_of(id) == Some(want) {
                pool.push(id);
            }
            k = k + 1;
        }
        proof {
            if pool@.len() == 0 {
                assert forall|w: int| !#[trigger] phi_replacement(*f, vi, i as int, w) by {
                    if phi_replacement(*f, vi, i as int, w) {
                        assert(cell_at(*g, w) is Some);
                        assert((w as u32) as int == w);
                        assert(ids@.contains(CellId(w as u32)));
                        let jj = choose|jj: int| 0 <= jj < ids@.len() && ids@[jj] == CellId(w as u32);
                        assert(!phi_replacement(*f, vi, i as int, ids@[jj].0 as int));
                    }
                }
            }
        }
        if pool.len() > 0 {
            slots.push((i, pool));
        }
        i = i + 1;
    }
    if slots.len() == 0 {
        proof {
            assert forall|s: int, w: int| !#[trigger] phi_replacement(*f, vi, s, w) by {
                if 0 <= s < joins@.len() {
                } else {
                }
            }
        }
        return false;
    }
    let picked = rng.pick(slots.as_slice());
    let (slot, pool) = match picked {
        Some(p) => (p.0, &p.1),
        None => return false,
    };
    proof {
        let idx = choose|q: int| 0 <= q < slots@.len() && slots@[q].0 == slot && slots@[q].1 == *pool;
    }
    let repl = pick_id(rng, pool);
    proof {
        let t = choose|t: int| 0 <= t < pool@.len() && pool@[t] == repl;
    }
    g.retarget(v, slot as u32, repl);
    true
}

/// Apply one input-level mutation of `kind` to a copy of `f`: pick a site
/// of the kind (see `sem_site`) and change it as `sem_mutated` says.
/// `None` when the kind finds nothing to do (see `sem_nothing`); the
/// pipeline-output tamper is not an input mutation and always gives
/// `None`. Every change goes through the sanctioned edits, so the result
/// stays well formed; a float constant is not bumped.
pub fn apply_input_mutation(f: &Fabric, kind: SemKind, rng: &mut Rng) -> (r: Option<Fabric>)
    requires
        f.wf(),
        types_known(*f),
        phis_complete(*f),
    ensures
        r matches Some(g) ==> g.wf() && exists|v: int| #[trigger] sem_site(*f, kind, v) && sem_mutated(*f, g, kind, v),
        r is None ==> sem_nothing(*f, kind),
        (kind is ArithSubDivSwap || kind is CmpOrderedSwap || kind is BranchTargetSwap || kind is JoinDropWithEdge) && (exists|v: int|
            #[trigger] sem_site(*f, kind, v)) ==> r is Some,
{
    let mut g = f.copy();
    if kind == SemKind::StageTamperControl {
        return None;
    }
    proof {
        assert forall|j: int| #[trigger] cell_at(g, j) == cell_at(*f, j) by {}
        assert forall|i: int| #[trigger] sem_site(g, kind, i) == sem_site(*f, kind, i) by {
            assert(cell_at(g, i) == cell_at(*f, i));
        }
    }
    let cands = sites(&g, kind);
    if cands.len() == 0 {
        proof {
            if exists|v: int| #[trigger] sem_site(*f, kind, v) {
                let v = choose|v: int| #[trigger] sem_site(*f, kind, v);
                assert(sem_site(g, kind, v));
                assert(cands@.contains(CellId(v as u32)));
            }
        }
        return None;
    }
    let v = pick_id(rng, &cands);
    proof {
        let q = choose|q: int| 0 <= q < cands@.len() && cands@[q] == v;
        assert(sem_site(g, kind, cands@[q].0 as int));
        assert(sem_site(*f, kind, v.0 as int));
    }
    let done = match kind {
        SemKind::ConstOffByOne => bump_site(f, &mut g, v, rng),
        SemKind::ArithSubDivSwap | SemKind::CmpOrderedSwap => {
            swap_site(f, &mut g, v, Ghost(kind));
            true
        },
        SemKind::RetValueSwap => ret_swap_site(f, &mut g, v, rng),
        SemKind::BranchTargetSwap => {
            branch_swap_site(f, &mut g, v);
            true
        },
        SemKind::PhiOperandRebind => phi_rebind_site(f, &mut g, v, rng),
        SemKind::JoinDropWithEdge => {
            join_drop_site(f, &mut g, v);
            true
        },
        SemKind::StageTamperControl => false,
    };
    if done {
        Some(g)
    } else {
        None
    }
}
} // verus!
