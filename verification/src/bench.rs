//! Benchmarks: toy program shapes of growing size, the median of timing
//! samples, and the row a benchmark reports.

use vstd::prelude::*;
use crate::cell::{ArithOp, Cell, CellKind, CellV, CmpOp, KindV};
use crate::chars::push_str;
use crate::dec::{dec, push_dec};
use crate::fabric::{cell_ty, ty_walk_ends};
use crate::text::{min_len, region_text};
use crate::ty::{const_text, ty_text};
use crate::fabric::{Fabric, cell_at};
use crate::id::{CellId, RegionId};
use crate::ty::{ConstVal, Type};

verus! {

broadcast use vstd::seq_lib::to_multiset_update, vstd::multiset::group_multiset_properties;

pub open spec fn sorted_u128(s: Seq<u128>) -> bool {
    forall|i: int, j: int| 0 <= i <= j < s.len() ==> s[i] <= s[j]
}

/// Swapping two entries keeps the multiset of values.
proof fn lemma_swap_multiset(s: Seq<u128>, i: int, j: int)
    requires
        0 <= i < s.len(),
        0 <= j < s.len(),
    ensures
        s.update(i, s[j]).update(j, s[i]).to_multiset() == s.to_multiset(),
{
    broadcast use vstd::seq_lib::to_multiset_contains;

    let m = s.to_multiset();
    let t = s.update(i, s[j]);
    assert(t[j] == s[j]);
    assert(s.contains(s[i]));
    assert(s.contains(s[j]));
    assert(m.count(s[i]) > 0);
    assert(m.count(s[j]) > 0);
    let m1 = m.insert(s[j]).remove(s[i]);
    assert(t.to_multiset() == m1);
    let m2 = m1.insert(s[i]).remove(s[j]);
    assert(t.update(j, s[i]).to_multiset() == m2);
    assert forall|x: u128| #[trigger] m2.count(x) == m.count(x) by {
        if x == s[i] && x == s[j] {
        } else if x == s[i] {
        } else if x == s[j] {
        }
    }
    assert(m2 =~= m);
}

/// Sort the samples in place (ascending) and return the middle one.
pub fn median_ns(samples: &mut [u128]) -> (m: u128)
    requires
        old(samples)@.len() > 0,
    ensures
        final(samples)@.len() == old(samples)@.len(),
        final(samples)@.to_multiset() == old(samples)@.to_multiset(),
        sorted_u128(final(samples)@),
        m == final(samples)@[final(samples)@.len() as int / 2],
{
    let n = samples.len();
    let mut i: usize = 1;
    while i < n
        invariant
            n == samples@.len(),
            1 <= i <= n,
            samples@.to_multiset() == old(samples)@.to_multiset(),
            sorted_u128(samples@.take(i as int)),
            samples@.len() == old(samples)@.len(),
        decreases n - i,
    {
        assert forall|a: int, b: int| 0 <= a <= b < i implies samples@[a] <= samples@[b] by {
            assert(samples@.take(i as int)[a] == samples@[a]);
            assert(samples@.take(i as int)[b] == samples@[b]);
        }
        let mut j = i;
        while j > 0 && samples[j - 1] > samples[j]
            invariant
                n == samples@.len(),
                samples@.len() == old(samples)@.len(),
                0 <= j <= i < n,
                samples@.to_multiset() == old(samples)@.to_multiset(),
                forall|a: int, b: int| 0 <= a <= b <= i && a != j && b != j ==> samples@[a] <= samples@[b],
                forall|b: int| j < b <= i ==> samples@[j as int] < samples@[b],
            decreases j,
        {
            let ghost s = samples@;
            let x = samples[j - 1];
            let y = samples[j];
            samples[j - 1] = y;
            samples[j] = x;
            proof {
                lemma_swap_multiset(s, j - 1, j as int);
                assert(samples@ == s.update(j - 1, s[j as int]).update(j as int, s[j - 1]));
            }
            j = j - 1;
        }
        assert forall|a: int, b: int| 0 <= a <= b <= i implies samples@[a] <= samples@[b] by {
            if a == j && b != j {
            } else if b == j && a != j {
                assert(samples@[j - 1] <= samples@[j as int]);
                if a < j - 1 {
                    assert(samples@[a] <= samples@[j - 1]);
                }
            }
        }
        i = i + 1;
        assert(sorted_u128(samples@.take(i as int)));
    }
    assert(samples@.take(n as int) =~= samples@);
    samples[n / 2]
}

/// One benchmark row.
pub struct Row {
    pub shape: String,
    pub cells: usize,
    pub fabric_bytes: usize,
    pub baseline_bytes: usize,
    pub print_ns: u128,
    pub baseline_print_ns: u128,
    pub parse_ns: u128,
    pub verify_ns: u128,
}

/// `f` is a one-region fabric named `entry` whose cells are listed in id
/// order, each referring only to earlier-or-existing ids.
pub open spec fn entry_only(f: Fabric) -> bool {
    &&& f.wf()
    &&& f.regions@.len() == 1
    &&& f.regions@[0].name@ == "entry"@
    &&& f.regions@[0].cells@ == Seq::new(f.slab@.len(), |i: int| CellId(i as u32))
    &&& f.slab@.len() <= u32::MAX
    &&& forall|i: int, k: int| #[trigger] cell_at(f, i) is Some && 0 <= k < cell_at(f, i)->0.operands.len() ==> (
    #[trigger] cell_at(f, i)->0.operands[k]).0 < f.slab@.len()
}

/// A fresh fabric with one empty region `entry`.
fn entry_fabric() -> (f: Fabric)
    ensures
        entry_only(f),
        f.slab@.len() == 0,
{
    let mut f = Fabric::empty();
    f.add_region("entry");
    assert(f.regions@[0].cells@ =~= Seq::new(0, |i: int| CellId(i as u32)));
    f
}

/// Append a cell to the entry region of an `entry_only` fabric.
fn add_entry_cell(f: &mut Fabric, cell: Cell) -> (id: CellId)
    requires
        entry_only(*old(f)),
        old(f).slab@.len() < u32::MAX,
        cell.region == RegionId(0),
        cell.operands@.len() <= u32::MAX,
        forall|k: int| 0 <= k < cell.operands@.len() ==> (#[trigger] cell.operands@[k]).0 < old(f).slab@.len(),
    ensures
        entry_only(*final(f)),
        id.0 == old(f).slab@.len(),
        final(f).slab@.len() == old(f).slab@.len() + 1,
        forall|i: int| 0 <= i < old(f).slab@.len() ==> #[trigger] cell_at(*final(f), i) == cell_at(*old(f), i),
        cell_at(*final(f), id.0 as int) == Some(cell@),
{
    let ghost o = *f;
    let ghost cv = cell@;
    proof {
        if crate::fabric::refers_into(o, o.slab@.len() as int, o.slab@.len() as int + 1) {
            let (i, k) = choose|i: int, k: int| #[trigger] cell_at(o, i) is Some && 0 <= k < cell_at(o, i)->0.operands.len()
                && o.slab@.len() <= (#[trigger] cell_at(o, i)->0.operands[k]).0 < o.slab@.len() + 1;
            assert(cell_at(o, i)->0.operands[k].0 < o.slab@.len());
        }
    }
    let id = f.add_cell(RegionId(0), cell);
    proof {
        assert forall|i: int| 0 <= i < o.slab@.len() implies #[trigger] cell_at(*f, i) == cell_at(o, i) by {
            assert(f.slab@[i] == o.slab@[i]);
        }
        assert(f.regions@[0].cells@ =~= Seq::new(f.slab@.len(), |i: int| CellId(i as u32)));
        assert forall|i: int, k: int| #[trigger] cell_at(*f, i) is Some && 0 <= k < cell_at(*f, i)->0.operands.len()
            implies (#[trigger] cell_at(*f, i)->0.operands[k]).0 < f.slab@.len() by {
            if i == id.0 {
                assert(cell_at(*f, i) == Some(cv));
            } else {
                assert(0 <= i < o.slab@.len());
                assert(cell_at(*f, i) == cell_at(o, i));
            }
        }
    }
    id
}

/// A cell of the given kind with the given operands.
fn make_cell(kind: CellKind, ops: Vec<CellId>) -> (c: Cell)
    requires
        !(kind@ is Phi),
    ensures
        c@ == (CellV { region: RegionId(0), kind: kind@, operands: ops@ }),
{
    let mut c = Cell::new(RegionId(0), kind);
    c.operands = ops;
    c
}

/// The cells of `chain(n)`: a param, the constant 1, `n` adds each of the
/// previous value and 1, and a return of the last value.
pub open spec fn chain_cell(n: nat, i: int) -> CellV {
    let add = KindV::Arith { op: ArithOp::Add, ty: Type::I32 };
    if i == 0 {
        CellV { region: RegionId(0), kind: KindV::Param { ty: Type::I32 }, operands: Seq::empty() }
    } else if i == 1 {
        CellV { region: RegionId(0), kind: KindV::Const { ty: Type::I32, val: ConstVal::I32(1) }, operands: Seq::empty() }
    } else if i < n + 2 {
        CellV { region: RegionId(0), kind: add, operands: seq![CellId(if i == 2 { 0 } else { (i - 1) as u32 }), CellId(1)] }
    } else {
        CellV { region: RegionId(0), kind: KindV::Ret, operands: seq![CellId(if n == 0 { 0 } else { (n + 1) as u32 })] }
    }
}

/// Straight-line add chain fed by a param (not foldable).
pub fn chain(n: u64) -> (f: Fabric)
    requires
        n + 3 <= u32::MAX,
    ensures
        entry_only(f),
        f.slab@.len() == n + 3,
        forall|i: int| 0 <= i < n + 3 ==> #[trigger] cell_at(f, i) == Some(chain_cell(n as nat, i)),
{
    let mut f = entry_fabric();
    let p = add_entry_cell(&mut f, make_cell(CellKind::Param { ty: Type::I32 }, Vec::new()));
    let one = add_entry_cell(&mut f, make_cell(CellKind::Const { ty: Type::I32, val: ConstVal::I32(1) }, Vec::new()));
    let mut prev = p;
    let mut k: u64 = 0;
    while k < n
        invariant
            n + 3 <= u32::MAX,
            k <= n,
            entry_only(f),
            f.slab@.len() == k + 2,
            one == CellId(1),
            prev.0 == if k == 0 { 0 } else { k + 1 },
            forall|i: int| 0 <= i < k + 2 ==> #[trigger] cell_at(f, i) == Some(chain_cell(n as nat, i)),
        decreases n - k,
    {
        let c = make_cell(CellKind::Arith { op: ArithOp::Add, ty: Type::I32 }, vec![prev, one]);
        prev = add_entry_cell(&mut f, c);
        k = k + 1;
    }
    let r = make_cell(CellKind::Ret, vec![prev]);
    let ghost before = f;
    let ghost rv = r@;
    let rid = add_entry_cell(&mut f, r);
    proof {
        assert(rv.operands =~= chain_cell(n as nat, n + 2).operands);
        assert(rv == chain_cell(n as nat, n + 2));
        assert(cell_at(f, rid.0 as int) == Some(chain_cell(n as nat, n + 2)));
        assert forall|i: int| 0 <= i < n + 3 implies #[trigger] cell_at(f, i) == Some(chain_cell(n as nat, i)) by {
            if i < n + 2 {
                assert(cell_at(f, i) == cell_at(before, i));
            }
        }
    }
    f
}

/// The cells of `foldchain(n)`: the constant 1, then `n` pairs of a
/// constant 1 and an add of the previous value and it, and a return of
/// the last value.
pub open spec fn foldchain_cell(n: nat, i: int) -> CellV {
    let one = CellV { region: RegionId(0), kind: KindV::Const { ty: Type::I32, val: ConstVal::I32(1) }, operands: Seq::empty() };
    if i == 0 {
        one
    } else if i < 2 * n + 1 {
        if i % 2 == 1 {
            one
        } else {
            CellV {
                region: RegionId(0),
                kind: KindV::Arith { op: ArithOp::Add, ty: Type::I32 },
                operands: seq![CellId(if i == 2 { 0 } else { (i - 2) as u32 }), CellId((i - 1) as u32)],
            }
        }
    } else {
        CellV { region: RegionId(0), kind: KindV::Ret, operands: seq![CellId(if n == 0 { 0 } else { (2 * n) as u32 })] }
    }
}

/// Fully foldable chain: constants all the way.
pub fn foldchain(n: u64) -> (f: Fabric)
    requires
        2 * n + 2 <= u32::MAX,
    ensures
        entry_only(f),
        f.slab@.len() == 2 * n + 2,
        forall|i: int| 0 <= i < 2 * n + 2 ==> #[trigger] cell_at(f, i) == Some(foldchain_cell(n as nat, i)),
{
    let mut f = entry_fabric();
    let mut prev = add_entry_cell(&mut f, make_cell(CellKind::Const { ty: Type::I32, val: ConstVal::I32(1) }, Vec::new()));
    let mut k: u64 = 0;
    while k < n
        invariant
            2 * n + 2 <= u32::MAX,
            k <= n,
            entry_only(f),
            f.slab@.len() == 2 * k + 1,
            prev.0 == if k == 0 { 0 } else { 2 * k },
            forall|i: int| 0 <= i < 2 * k + 1 ==> #[trigger] cell_at(f, i) == Some(foldchain_cell(n as nat, i)),
        decreases n - k,
    {
        let one = add_entry_cell(&mut f, make_cell(CellKind::Const { ty: Type::I32, val: ConstVal::I32(1) }, Vec::new()));
        let c = make_cell(CellKind::Arith { op: ArithOp::Add, ty: Type::I32 }, vec![prev, one]);
        prev = add_entry_cell(&mut f, c);
        k = k + 1;
    }
    let r = make_cell(CellKind::Ret, vec![prev]);
    let ghost before = f;
    let ghost rv = r@;
    let rid = add_entry_cell(&mut f, r);
    proof {
        assert(rv.operands =~= foldchain_cell(n as nat, 2 * n + 1).operands);
        assert(rv == foldchain_cell(n as nat, 2 * n + 1));
        assert(cell_at(f, rid.0 as int) == Some(foldchain_cell(n as nat, 2 * n + 1)));
        assert forall|i: int| 0 <= i < 2 * n + 2 implies #[trigger] cell_at(f, i) == Some(foldchain_cell(n as nat, i)) by {
            if i < 2 * n + 1 {
                assert(cell_at(f, i) == cell_at(before, i));
            }
        }
    }
    f
}

/// The baseline opcode of an arithmetic operation.
pub open spec fn arith_word(op: ArithOp) -> Seq<char> {
    match op {
        ArithOp::Add => "add"@,
        ArithOp::Sub => "sub"@,
        ArithOp::Mul => "mul"@,
        ArithOp::Div => "sdiv"@,
    }
}

/// The baseline opcode of a comparison.
pub open spec fn compare_word(op: CmpOp) -> Seq<char> {
    match op {
        CmpOp::Eq => "icmp eq"@,
        CmpOp::Ne => "icmp ne"@,
        CmpOp::Lt => "icmp slt"@,
        CmpOp::Le => "icmp sle"@,
        CmpOp::Gt => "icmp sgt"@,
        CmpOp::Ge => "icmp sge"@,
    }
}

/// Operand `k` in the baseline (empty when absent).
pub open spec fn base_operand(ops: Seq<CellId>, k: int) -> Seq<char> {
    if 0 <= k < ops.len() {
        "%"@ + dec(ops[k].0 as nat)
    } else {
        Seq::empty()
    }
}

/// The first `n` phi inputs in the baseline: `[ %v, %block ]`, joined by
/// `, `.
pub open spec fn base_joins(f: Fabric, joins: Seq<RegionId>, ops: Seq<CellId>, n: nat) -> Seq<char>
    decreases n,
{
    if n == 0 {
        Seq::empty()
    } else {
        let one = "[ %"@ + dec(ops[n - 1].0 as nat) + ", %"@ + region_text(f, joins[n - 1]) + " ]"@;
        if n == 1 {
            one
        } else {
            base_joins(f, joins, ops, (n - 1) as nat) + ", "@ + one
        }
    }
}

/// The type the baseline gives a phi: that of its first operand.
pub open spec fn base_phi_type(f: Fabric, ops: Seq<CellId>) -> Seq<char> {
    match cell_at(f, ops[0].0 as int) {
        Some(c) => match cell_ty(f, c) {
            Some(t) => ty_text(t),
            None => "?"@,
        },
        None => "?"@,
    }
}

/// One cell in the baseline.
pub open spec fn base_line(f: Fabric, id: CellId, c: CellV) -> Seq<char> {
    let ops = c.operands;
    let n = dec(id.0 as nat);
    match c.kind {
        KindV::Param { ty } => n + " = param "@ + ty_text(ty),
        KindV::Const { ty, val } => n + " = const "@ + ty_text(ty) + " "@ + const_text(val),
        KindV::Arith { op, ty } => n + " = "@ + arith_word(op) + " "@ + ty_text(ty) + " "@ + base_operand(ops, 0) + ", "@
            + base_operand(ops, 1),
        KindV::Cmp { op } => n + " = "@ + compare_word(op) + " "@ + base_operand(ops, 0) + ", "@ + base_operand(ops, 1),
        KindV::Branch { then_r, else_r } => "br "@ + base_operand(ops, 0) + ", label %"@ + region_text(f, then_r)
            + ", label %"@ + region_text(f, else_r),
        KindV::Jump { target } => "br label %"@ + region_text(f, target),
        KindV::Phi { joins } => n + " = phi "@ + base_phi_type(f, ops) + " "@ + base_joins(
            f,
            joins,
            ops,
            min_len(joins.len(), ops.len()),
        ),
        KindV::Ret => if ops.len() == 0 {
            "ret void"@
        } else {
            "ret "@ + base_operand(ops, 0)
        },
    }
}

/// The first `k` listed cells of a region in the baseline, present ones
/// only.
pub open spec fn base_cells(f: Fabric, cells: Seq<CellId>, k: int) -> Seq<char>
    decreases k,
{
    if k <= 0 {
        Seq::empty()
    } else {
        base_cells(f, cells, k - 1) + match cell_at(f, cells[k - 1].0 as int) {
            Some(c) => "  "@ + base_line(f, cells[k - 1], c) + "\n"@,
            None => Seq::empty(),
        }
    }
}

/// The first `n` regions in the baseline.
pub open spec fn base_text(f: Fabric, n: int) -> Seq<char>
    decreases n,
{
    if n <= 0 {
        Seq::empty()
    } else {
        base_text(f, n - 1) + f.regions@[n - 1].name@ + ":\n"@ + base_cells(
            f,
            f.regions@[n - 1].cells@,
            f.regions@[n - 1].cells@.len() as int,
        )
    }
}

/// The baseline can render every listed cell: no float constants, and
/// every phi has a first operand whose type walk ends.
pub open spec fn base_renderable(f: Fabric) -> bool {
    forall|r: int, k: int| 0 <= r < f.regions@.len() && 0 <= k < f.regions@[r].cells@.len() ==> match cell_at(
        f,
        (#[trigger] f.regions@[r].cells@[k]).0 as int,
    ) {
        Some(c) => {
            &&& !(c.kind matches KindV::Const { val: ConstVal::F64(_), .. })
            &&& c.kind is Phi ==> c.operands.len() > 0 && (cell_at(f, c.operands[0].0 as int) is Some ==> ty_walk_ends(
                f,
                cell_at(f, c.operands[0].0 as int)->0,
            ))
        },
        None => true,
    }
}

fn push_base_operand(out: &mut String, ops: &Vec<CellId>, k: usize)
    ensures
        final(out)@ == old(out)@ + base_operand(ops@, k as int),
{
    if k < ops.len() {
        push_str(out, "%");
        push_dec(out, ops[k].0 as u64);
    } else {
        assert(base_operand(ops@, k as int) =~= Seq::<char>::empty());
        assert(old(out)@ + Seq::<char>::empty() =~= old(out)@);
    }
}


/// Append a phi's baseline line.
#[verifier::spinoff_prover]
fn push_base_phi(out: &mut String, f: &Fabric, id: CellId, joins: &Vec<RegionId>, ops: &Vec<CellId>)
    requires
        ops@.len() > 0,
        cell_at(*f, ops@[0].0 as int) is Some ==> ty_walk_ends(*f, cell_at(*f, ops@[0].0 as int)->0),
    ensures
        final(out)@ == old(out)@ + base_line(*f, id, CellV { region: RegionId(0), kind: KindV::Phi { joins: joins@ }, operands: ops@ }),
{
    push_dec(out, id.0 as u64);
    push_str(out, " = phi ");
    match f.ty_of(ops[0]) {
        Some(t) => push_str(out, t.name()),
        None => push_str(out, "?"),
    }
    push_str(out, " ");
    let n = if joins.len() < ops.len() { joins.len() } else { ops.len() };
    let ghost base = out@;
    let mut k: usize = 0;
    while k < n
        invariant
            n == min_len(joins@.len(), ops@.len()),
            n <= joins@.len(),
            n <= ops@.len(),
            k <= n,
            out@ == base + base_joins(*f, joins@, ops@, k as nat),
        decreases n - k,
    {
        if k > 0 {
            push_str(out, ", ");
        }
        push_str(out, "[ %");
        push_dec(out, ops[k].0 as u64);
        push_str(out, ", %");
        push_str(out, f.region_name(joins[k]));
        push_str(out, " ]");
        k = k + 1;
    }
}

/// Append one cell's baseline line.
#[verifier::spinoff_prover]
#[verifier::rlimit(60)]
fn push_base_line(out: &mut String, f: &Fabric, id: CellId, c: &Cell)
    requires
        !(c.kind@ matches KindV::Const { val: ConstVal::F64(_), .. }),
        c.kind@ is Phi ==> c.operands@.len() > 0 && (cell_at(*f, c.operands@[0].0 as int) is Some ==> ty_walk_ends(
            *f,
            cell_at(*f, c.operands@[0].0 as int)->0,
        )),
    ensures
        final(out)@ == old(out)@ + base_line(*f, id, c@),
{
    let ops = &c.operands;
    match &c.kind {
        CellKind::Param { ty } => {
            push_dec(out, id.0 as u64);
            push_str(out, " = param ");
            push_str(out, ty.name());
        },
        CellKind::Const { ty, val } => {
            push_dec(out, id.0 as u64);
            push_str(out, " = const ");
            push_str(out, ty.name());
            push_str(out, " ");
            let v = val.render();
            push_str(out, v.as_str());
        },
        CellKind::Arith { op, ty } => {
            push_dec(out, id.0 as u64);
            push_str(out, " = ");
            let w = match op {
                ArithOp::Add => "add",
                ArithOp::Sub => "sub",
                ArithOp::Mul => "mul",
                ArithOp::Div => "sdiv",
            };
            proof {
                reveal_strlit("add");
                reveal_strlit("sub");
                reveal_strlit("mul");
                reveal_strlit("sdiv");
            }
            assert(w@ == arith_word(*op));
            push_str(out, w);
            push_str(out, " ");
            push_str(out, ty.name());
            push_str(out, " ");
            push_base_operand(out, ops, 0);
            push_str(out, ", ");
            push_base_operand(out, ops, 1);
        },
        CellKind::Cmp { op } => {
            push_dec(out, id.0 as u64);
            push_str(out, " = ");
            let w = match op {
                CmpOp::Eq => "icmp eq",
                CmpOp::Ne => "icmp ne",
                CmpOp::Lt => "icmp slt",
                CmpOp::Le => "icmp sle",
                CmpOp::Gt => "icmp sgt",
                CmpOp::Ge => "icmp sge",
            };
            assert(w@ == compare_word(*op));
            push_str(out, w);
            push_str(out, " ");
            push_base_operand(out, ops, 0);
            push_str(out, ", ");
            push_base_operand(out, ops, 1);
        },
        CellKind::Branch { then_r, else_r } => {
            push_str(out, "br ");
            push_base_operand(out, ops, 0);
            push_str(out, ", label %");
            push_str(out, f.region_name(*then_r));
            push_str(out, ", label %");
            push_str(out, f.region_name(*else_r));
        },
        CellKind::Jump { target } => {
            push_str(out, "br label %");
            push_str(out, f.region_name(*target));
        },
        CellKind::Phi { joins } => {
            push_base_phi(out, f, id, joins, ops);
        },
        CellKind::Ret => {
            if ops.len() == 0 {
                push_str(out, "ret void");
            } else {
                push_str(out, "ret ");
                push_base_operand(out, ops, 0);
            }
        },
    }
}

/// Minimal LLVM-.ll-flavored text for the same fabric: bare block
/// labels, short opcodes, typed phis. Cells listed but absent are
/// skipped.
pub fn baseline_ssa(f: &Fabric) -> (s: String)
    requires
        base_renderable(*f),
    ensures
        s@ == base_text(*f, f.regions@.len() as int),
{
    let mut out = String::new();
    let mut r: usize = 0;
    while r < f.regions.len()
        invariant
            base_renderable(*f),
            r <= f.regions@.len(),
            out@ == base_text(*f, r as int),
        decreases f.regions@.len() - r,
    {
        let region = &f.regions[r];
        push_str(&mut out, region.name.as_str());
        push_str(&mut out, ":\n");
        let ghost head = out@;
        let mut k: usize = 0;
        while k < region.cells.len()
            invariant
                base_renderable(*f),
                r < f.regions@.len(),
                region == f.regions@[r as int],
                k <= region.cells@.len(),
                out@ == head + base_cells(*f, region.cells@, k as int),
            decreases region.cells@.len() - k,
        {
            let id = region.cells[k];
            match f.cell(id) {
                Some(c) => {
                    assert(f.regions@[r as int].cells@[k as int] == id);
                    push_str(&mut out, "  ");
                    push_base_line(&mut out, f, id, c);
                    push_str(&mut out, "\n");
                },
                None => {},
            }
            k = k + 1;
        }
        r = r + 1;
    }
    out
}

/// Every operand of every present cell is an id below the slab length.
pub open spec fn ops_below(f: Fabric) -> bool {
    forall|i: int, k: int| #[trigger] cell_at(f, i) is Some && 0 <= k < cell_at(f, i)->0.operands.len() ==> (
    #[trigger] cell_at(f, i)->0.operands[k]).0 < f.slab@.len()
}

/// Append a cell at the end of region `r` of a well-formed fabric whose
/// operands all point backwards.
fn append_cell(f: &mut Fabric, r: RegionId, cell: Cell) -> (id: CellId)
    requires
        old(f).wf(),
        ops_below(*old(f)),
        old(f).slab@.len() < u32::MAX,
        (r.0 as int) < old(f).regions@.len(),
        old(f).regions@[r.0 as int].cells@.len() <= old(f).slab@.len(),
        cell.region == r,
        cell.operands@.len() <= u32::MAX,
        forall|k: int| 0 <= k < cell.operands@.len() ==> (#[trigger] cell.operands@[k]).0 < old(f).slab@.len(),
    ensures
        final(f).wf(),
        ops_below(*final(f)),
        id.0 == old(f).slab@.len(),
        final(f).slab@.len() == old(f).slab@.len() + 1,
        forall|i: int| 0 <= i < old(f).slab@.len() ==> #[trigger] cell_at(*final(f), i) == cell_at(*old(f), i),
        cell_at(*final(f), id.0 as int) == Some(cell@),
        final(f).regions@.len() == old(f).regions@.len(),
        forall|q: int| 0 <= q < old(f).regions@.len() ==> (#[trigger] final(f).regions@[q]).name@ == old(f).regions@[q].name@,
        forall|q: int| 0 <= q < old(f).regions@.len() && q != r.0 ==> (#[trigger] final(f).regions@[q]).cells@ == old(
            f,
        ).regions@[q].cells@,
        final(f).regions@[r.0 as int].cells@ == old(f).regions@[r.0 as int].cells@.push(id),
        grew(*old(f), *final(f), r.0 as int, seq![id]),
{
    let ghost o = *f;
    let ghost cv = cell@;
    proof {
        if crate::fabric::refers_into(o, o.slab@.len() as int, o.slab@.len() as int + 1) {
            let (i, k) = choose|i: int, k: int| #[trigger] cell_at(o, i) is Some && 0 <= k < cell_at(o, i)->0.operands.len()
                && o.slab@.len() <= (#[trigger] cell_at(o, i)->0.operands[k]).0 < o.slab@.len() + 1;
            assert(cell_at(o, i)->0.operands[k].0 < o.slab@.len());
        }
    }
    let id = f.add_cell(r, cell);
    proof {
        let cs = o.regions@[r.0 as int].cells@;
        assert(f.regions@[r.0 as int].cells@ =~= cs.push(id));
        assert(cs.push(id) =~= cs + seq![id]);
        assert forall|q: int| 0 <= q < o.regions@.len() implies (#[trigger] f.regions@[q]).name@ == o.regions@[q].name@ by {
            if q != r.0 {
                assert(f.regions@[q] == o.regions@[q]);
            }
        }
        assert forall|i: int| 0 <= i < o.slab@.len() implies #[trigger] cell_at(*f, i) == cell_at(o, i) by {
            assert(f.slab@[i] == o.slab@[i]);
        }
        assert forall|i: int, k: int| #[trigger] cell_at(*f, i) is Some && 0 <= k < cell_at(*f, i)->0.operands.len()
            implies (#[trigger] cell_at(*f, i)->0.operands[k]).0 < f.slab@.len() by {
            if i == id.0 {
                assert(cell_at(*f, i) == Some(cv));
            } else {
                assert(0 <= i < o.slab@.len());
                assert(cell_at(*f, i) == cell_at(o, i));
            }
        }
    }
    id
}

/// `name` followed by the decimal text of `i`.
fn indexed_name(name: &str, i: u64) -> (s: String)
    ensures
        s@ == name@ + dec(i as nat),
{
    let mut s = String::new();
    push_str(&mut s, name);
    push_dec(&mut s, i);
    s
}

/// The region of diamond `i`'s split: the entry for the first, the
/// previous join after.
pub open spec fn split_region(i: int) -> int {
    if i == 0 {
        0
    } else {
        3 * i
    }
}

/// The cell under id `id` in `diamonds(n)`. Ids 0 and 1 are the entry
/// param and the constant 0; diamond `i` takes the nine ids from
/// `2 + 9 * i`: the comparison and branch of its split, the arm cells of
/// `t{i}` and `e{i}`, and the join's phi; the last join returns its phi.
pub open spec fn diamond_cell(n: nat, id: int) -> CellV {
    let add = KindV::Arith { op: ArithOp::Add, ty: Type::I32 };
    if id == 0 {
        CellV { region: RegionId(0), kind: KindV::Param { ty: Type::I32 }, operands: Seq::empty() }
    } else if id == 1 {
        CellV { region: RegionId(0), kind: KindV::Const { ty: Type::I32, val: ConstVal::I32(0) }, operands: Seq::empty() }
    } else if id < 2 + 9 * n {
        let i = (id - 2) / 9;
        let b = 2 + 9 * i;
        let t = RegionId((1 + 3 * i) as u32);
        let e = RegionId((2 + 3 * i) as u32);
        let j = RegionId((3 + 3 * i) as u32);
        let split = RegionId(split_region(i) as u32);
        if id == b {
            CellV { region: split, kind: KindV::Cmp { op: CmpOp::Lt }, operands: seq![CellId(0), CellId(1)] }
        } else if id == b + 1 {
            CellV { region: split, kind: KindV::Branch { then_r: t, else_r: e }, operands: seq![CellId(b as u32)] }
        } else if id == b + 2 {
            CellV { region: t, kind: KindV::Const { ty: Type::I32, val: ConstVal::I32(1) }, operands: Seq::empty() }
        } else if id == b + 3 {
            CellV { region: t, kind: add, operands: seq![CellId(0), CellId((b + 2) as u32)] }
        } else if id == b + 4 {
            CellV { region: t, kind: KindV::Jump { target: j }, operands: Seq::empty() }
        } else if id == b + 5 {
            CellV { region: e, kind: KindV::Const { ty: Type::I32, val: ConstVal::I32(2) }, operands: Seq::empty() }
        } else if id == b + 6 {
            CellV { region: e, kind: add, operands: seq![CellId(0), CellId((b + 5) as u32)] }
        } else if id == b + 7 {
            CellV { region: e, kind: KindV::Jump { target: j }, operands: Seq::empty() }
        } else {
            CellV { region: j, kind: KindV::Phi { joins: seq![t, e] }, operands: seq![CellId((b + 3) as u32), CellId((b + 6) as u32)] }
        }
    } else {
        CellV { region: RegionId((3 * n) as u32), kind: KindV::Ret, operands: seq![CellId((1 + 9 * n) as u32)] }
    }
}

/// The cell list of region `r` in `diamonds(n)`.
pub open spec fn diamond_list(n: nat, r: int) -> Seq<CellId> {
    let i = (r - 1) / 3;
    let b = 2 + 9 * i;
    if r == 0 {
        if n == 0 {
            seq![CellId(0), CellId(1)]
        } else {
            seq![CellId(0), CellId(1), CellId(2), CellId(3)]
        }
    } else if r % 3 == 1 {
        seq![CellId((b + 2) as u32), CellId((b + 3) as u32), CellId((b + 4) as u32)]
    } else if r % 3 == 2 {
        seq![CellId((b + 5) as u32), CellId((b + 6) as u32), CellId((b + 7) as u32)]
    } else if i + 1 < n {
        seq![CellId((b + 8) as u32), CellId((b + 9) as u32), CellId((b + 10) as u32)]
    } else {
        seq![CellId((b + 8) as u32), CellId((2 + 9 * n) as u32)]
    }
}

/// The name of region `r` in `diamonds(n)`.
pub open spec fn diamond_name(r: int) -> Seq<char> {
    let i = (r - 1) / 3;
    if r == 0 {
        "entry"@
    } else if r % 3 == 1 {
        "t"@ + dec(i as nat)
    } else if r % 3 == 2 {
        "e"@ + dec(i as nat)
    } else {
        "j"@ + dec(i as nat)
    }
}

/// A cell in region `r` of the given kind with the given operands.
fn cell_in(r: RegionId, kind: CellKind, ops: Vec<CellId>) -> (c: Cell)
    ensures
        c@ == (CellV { region: r, kind: kind@, operands: ops@ }),
{
    let mut c = Cell::new(r, kind);
    c.operands = ops;
    c
}

/// The shape of `diamonds(n)` after `i` diamonds are built.
pub open spec fn diamonds_built(f: Fabric, n: nat, i: nat) -> bool {
    let done = i == n && n > 0;
    &&& f.wf()
    &&& ops_below(f)
    &&& f.slab@.len() == 2 + 9 * i + if done { 1int } else { 0int }
    &&& f.regions@.len() == 1 + 3 * i
    &&& forall|id: int| 0 <= id < f.slab@.len() ==> #[trigger] cell_at(f, id) == Some(diamond_cell(n, id))
    &&& forall|r: int| 0 <= r < f.regions@.len() ==> (#[trigger] f.regions@[r]).name@ == diamond_name(r)
    &&& forall|r: int| 0 <= r < f.regions@.len() && (r != split_region(i as int) || done) ==> (
    #[trigger] f.regions@[r]).cells@ == diamond_list(n, r)
    &&& !done ==> f.regions@[split_region(i as int)].cells@ == if i == 0 {
        seq![CellId(0), CellId(1)]
    } else {
        seq![CellId((1 + 9 * i) as u32)]
    }
}


/// The fabric `g` is `f` with cells appended: the old cells and the
/// region names stay, and only region `r`'s list grows, by `ids`.
pub open spec fn grew(f: Fabric, g: Fabric, r: int, ids: Seq<CellId>) -> bool {
    &&& g.wf()
    &&& ops_below(g)
    &&& g.slab@.len() == f.slab@.len() + ids.len()
    &&& forall|i: int| 0 <= i < f.slab@.len() ==> #[trigger] cell_at(g, i) == cell_at(f, i)
    &&& g.regions@.len() == f.regions@.len()
    &&& forall|q: int| 0 <= q < f.regions@.len() ==> (#[trigger] g.regions@[q]).name@ == f.regions@[q].name@
    &&& forall|q: int| 0 <= q < f.regions@.len() && q != r ==> (#[trigger] g.regions@[q]).cells@ == f.regions@[q].cells@
    &&& g.regions@[r].cells@ == f.regions@[r].cells@ + ids
}

/// Append an arm: the constant `v`, the add of `p` and it, and a jump to
/// `j`.
fn append_arm(f: &mut Fabric, r: RegionId, v: i32, p: CellId, j: RegionId)
    requires
        old(f).wf(),
        ops_below(*old(f)),
        old(f).slab@.len() + 3 < u32::MAX,
        (r.0 as int) < old(f).regions@.len(),
        old(f).regions@[r.0 as int].cells@.len() <= old(f).slab@.len(),
        p.0 < old(f).slab@.len(),
    ensures
        ({
            let b = old(f).slab@.len() as int;
            &&& grew(*old(f), *final(f), r.0 as int, seq![CellId(b as u32), CellId((b + 1) as u32), CellId((b + 2) as u32)])
            &&& cell_at(*final(f), b) == Some(CellV { region: r, kind: KindV::Const { ty: Type::I32, val: ConstVal::I32(v) }, operands: Seq::empty() })
            &&& cell_at(*final(f), b + 1) == Some(CellV { region: r, kind: KindV::Arith { op: ArithOp::Add, ty: Type::I32 }, operands: seq![p, CellId(b as u32)] })
            &&& cell_at(*final(f), b + 2) == Some(CellV { region: r, kind: KindV::Jump { target: j }, operands: Seq::empty() })
        }),
{
    let ghost o = *f;
    let c = append_cell(f, r, cell_in(r, CellKind::Const { ty: Type::I32, val: ConstVal::I32(v) }, Vec::new()));
    let ghost f1 = *f;
    let a = append_cell(f, r, cell_in(r, CellKind::Arith { op: ArithOp::Add, ty: Type::I32 }, vec![p, c]));
    let ghost f2 = *f;
    let jmp = append_cell(f, r, cell_in(r, CellKind::Jump { target: j }, Vec::new()));
    proof {
        let b = o.slab@.len() as int;
        assert(f.regions@[r.0 as int].cells@ =~= o.regions@[r.0 as int].cells@ + seq![CellId(b as u32), CellId((b + 1) as u32), CellId((b + 2) as u32)]);
        assert(cell_at(*f, b) == cell_at(f1, b));
        assert(cell_at(*f, b + 1) == cell_at(f2, b + 1));
        assert forall|i: int| 0 <= i < o.slab@.len() implies #[trigger] cell_at(*f, i) == cell_at(o, i) by {
            assert(cell_at(f2, i) == cell_at(f1, i));
        }
        assert forall|q: int| 0 <= q < o.regions@.len() && q != r.0 implies (#[trigger] f.regions@[q]).cells@ == o.regions@[q].cells@ by {
            assert(f2.regions@[q].cells@ == f1.regions@[q].cells@);
        }
        assert forall|q: int| 0 <= q < o.regions@.len() implies (#[trigger] f.regions@[q]).name@ == o.regions@[q].name@ by {
            assert(f2.regions@[q].name@ == f1.regions@[q].name@);
        }
    }
}

/// Append a split: the comparison `%0 < %1` and a branch on it to `t`
/// and `e`.
fn append_split(f: &mut Fabric, r: RegionId, t: RegionId, e: RegionId)
    requires
        old(f).wf(),
        ops_below(*old(f)),
        old(f).slab@.len() + 2 < u32::MAX,
        old(f).slab@.len() >= 2,
        (r.0 as int) < old(f).regions@.len(),
        old(f).regions@[r.0 as int].cells@.len() <= old(f).slab@.len(),
    ensures
        ({
            let b = old(f).slab@.len() as int;
            &&& grew(*old(f), *final(f), r.0 as int, seq![CellId(b as u32), CellId((b + 1) as u32)])
            &&& cell_at(*final(f), b) == Some(CellV { region: r, kind: KindV::Cmp { op: CmpOp::Lt }, operands: seq![CellId(0), CellId(1)] })
            &&& cell_at(*final(f), b + 1) == Some(CellV { region: r, kind: KindV::Branch { then_r: t, else_r: e }, operands: seq![CellId(b as u32)] })
        }),
{
    let ghost o = *f;
    let lt = append_cell(f, r, cell_in(r, CellKind::Cmp { op: CmpOp::Lt }, vec![CellId(0), CellId(1)]));
    let ghost f1 = *f;
    let br_cell = cell_in(r, CellKind::Branch { then_r: t, else_r: e }, vec![lt]);
    assert(br_cell@.operands =~= seq![lt]);
    let ghost bv = br_cell@;
    let br = append_cell(f, r, br_cell);
    proof {
        assert(lt.0 == o.slab@.len());
        assert(cell_at(*f, br.0 as int) == Some(bv));
        let b = o.slab@.len() as int;
        assert(f.regions@[r.0 as int].cells@ =~= o.regions@[r.0 as int].cells@ + seq![CellId(b as u32), CellId((b + 1) as u32)]);
        assert(cell_at(*f, b) == cell_at(f1, b));
        assert(cell_at(*f, b) == Some(CellV { region: r, kind: KindV::Cmp { op: CmpOp::Lt }, operands: seq![CellId(0), CellId(1)] }));
        assert(cell_at(*f, b + 1) == Some(CellV { region: r, kind: KindV::Branch { then_r: t, else_r: e }, operands: seq![CellId(b as u32)] }));
        assert forall|i: int| 0 <= i < o.slab@.len() implies #[trigger] cell_at(*f, i) == cell_at(o, i) by {
            assert(cell_at(*f, i) == cell_at(f1, i));
        }
        assert(grew(o, *f, r.0 as int, seq![CellId(b as u32), CellId((b + 1) as u32)]));
        assert forall|q: int| 0 <= q < o.regions@.len() implies (#[trigger] f.regions@[q]).name@ == o.regions@[q].name@ by {
            assert(f.regions@[q].name@ == f1.regions@[q].name@);
        }
        assert forall|q: int| 0 <= q < o.regions@.len() && q != r.0 implies (#[trigger] f.regions@[q]).cells@ == o.regions@[q].cells@ by {
            assert(f.regions@[q].cells@ == f1.regions@[q].cells@);
        }
    }
}

proof fn lemma_div9(i: int, k: int)
    requires
        0 <= i,
        0 <= k < 9,
    ensures
        (2 + 9 * i + k - 2) / 9 == i,
{
    assert((9 * i + k) / 9 == i) by (nonlinear_arith)
        requires
            0 <= i,
            0 <= k < 9,
    ;
}

proof fn lemma_div3(i: int, k: int)
    requires
        0 <= i,
        1 <= k <= 3,
    ensures
        (3 * i + k - 1) / 3 == i,
        (3 * i + k) % 3 == k % 3,
{
    assert((3 * i + k - 1) / 3 == i) by (nonlinear_arith)
        requires
            0 <= i,
            1 <= k <= 3,
    ;
    assert((3 * i + k) % 3 == k % 3) by (nonlinear_arith)
        requires
            0 <= i,
            1 <= k <= 3,
    ;
}

/// Diamond `i`'s cells are the promised ones.
#[verifier::spinoff_prover]
#[verifier::rlimit(100)]
proof fn lemma_step_cells(
    f0: Fabric,
    f1: Fabric,
    f2: Fabric,
    f3: Fabric,
    f4: Fabric,
    f5: Fabric,
    f6: Fabric,
    n: nat,
    i: nat,
)
    requires
        diamonds_built(f0, n, i),
        i < n,
        f1.wf(),
        ops_below(f1),
        f1.slab == f0.slab,
        f1.regions@.len() == f0.regions@.len() + 3,
        forall|q: int| 0 <= q < f0.regions@.len() ==> #[trigger] f1.regions@[q] == f0.regions@[q],
        f1.regions@[(1 + 3 * i) as int].name@ == "t"@ + dec(i),
        f1.regions@[(2 + 3 * i) as int].name@ == "e"@ + dec(i),
        f1.regions@[(3 + 3 * i) as int].name@ == "j"@ + dec(i),
        f1.regions@[(1 + 3 * i) as int].cells@.len() == 0,
        f1.regions@[(2 + 3 * i) as int].cells@.len() == 0,
        f1.regions@[(3 + 3 * i) as int].cells@.len() == 0,
        ({
            let b = (2 + 9 * i) as int;
            &&& grew(f1, f2, split_region(i as int), seq![CellId(b as u32), CellId((b + 1) as u32)])
            &&& cell_at(f2, b) == Some(diamond_cell(n, b))
            &&& cell_at(f2, b + 1) == Some(diamond_cell(n, b + 1))
            &&& grew(f2, f3, (1 + 3 * i) as int, seq![CellId((b + 2) as u32), CellId((b + 3) as u32), CellId((b + 4) as u32)])
            &&& cell_at(f3, b + 2) == Some(diamond_cell(n, b + 2))
            &&& cell_at(f3, b + 3) == Some(diamond_cell(n, b + 3))
            &&& cell_at(f3, b + 4) == Some(diamond_cell(n, b + 4))
            &&& grew(f3, f4, (2 + 3 * i) as int, seq![CellId((b + 5) as u32), CellId((b + 6) as u32), CellId((b + 7) as u32)])
            &&& cell_at(f4, b + 5) == Some(diamond_cell(n, b + 5))
            &&& cell_at(f4, b + 6) == Some(diamond_cell(n, b + 6))
            &&& cell_at(f4, b + 7) == Some(diamond_cell(n, b + 7))
            &&& grew(f4, f5, (3 + 3 * i) as int, seq![CellId((b + 8) as u32)])
            &&& cell_at(f5, b + 8) == Some(diamond_cell(n, b + 8))
            &&& if i + 1 == n {
                &&& grew(f5, f6, (3 + 3 * i) as int, seq![CellId((b + 9) as u32)])
                &&& cell_at(f6, b + 9) == Some(diamond_cell(n, b + 9))
            } else {
                f6 == f5
            }
        }),
    ensures
        forall|id: int| 0 <= id < f6.slab@.len() ==> #[trigger] cell_at(f6, id) == Some(diamond_cell(n, id)),
{
    let ii = i as int;
    let bb = 2 + 9 * ii;
    let sp = split_region(ii);
    let ti = 1 + 3 * ii;
    let ei = 2 + 3 * ii;
    let ji = 3 + 3 * ii;
    lemma_div3(ii, 1);
    lemma_div3(ii, 2);
    lemma_div3(ii, 3);
    assert forall|id: int| 0 <= id < f6.slab@.len() implies #[trigger] cell_at(f6, id) == Some(diamond_cell(n, id)) by {
        if id < f5.slab@.len() {
            assert(cell_at(f6, id) == cell_at(f5, id));
        }
        if id < f4.slab@.len() {
            assert(cell_at(f5, id) == cell_at(f4, id));
        }
        if id < f3.slab@.len() {
            assert(cell_at(f4, id) == cell_at(f3, id));
        }
        if id < f2.slab@.len() {
            assert(cell_at(f3, id) == cell_at(f2, id));
        }
        if id < f1.slab@.len() {
            assert(cell_at(f2, id) == cell_at(f1, id));
            assert(cell_at(f1, id) == cell_at(f0, id));
        }
    }
}

/// Diamond `i`'s region names are the promised ones.
#[verifier::spinoff_prover]
#[verifier::rlimit(100)]
proof fn lemma_step_names(
    f0: Fabric,
    f1: Fabric,
    f2: Fabric,
    f3: Fabric,
    f4: Fabric,
    f5: Fabric,
    f6: Fabric,
    n: nat,
    i: nat,
)
    requires
        diamonds_built(f0, n, i),
        i < n,
        f1.wf(),
        ops_below(f1),
        f1.slab == f0.slab,
        f1.regions@.len() == f0.regions@.len() + 3,
        forall|q: int| 0 <= q < f0.regions@.len() ==> #[trigger] f1.regions@[q] == f0.regions@[q],
        f1.regions@[(1 + 3 * i) as int].name@ == "t"@ + dec(i),
        f1.regions@[(2 + 3 * i) as int].name@ == "e"@ + dec(i),
        f1.regions@[(3 + 3 * i) as int].name@ == "j"@ + dec(i),
        f1.regions@[(1 + 3 * i) as int].cells@.len() == 0,
        f1.regions@[(2 + 3 * i) as int].cells@.len() == 0,
        f1.regions@[(3 + 3 * i) as int].cells@.len() == 0,
        ({
            let b = (2 + 9 * i) as int;
            &&& grew(f1, f2, split_region(i as int), seq![CellId(b as u32), CellId((b + 1) as u32)])
            &&& cell_at(f2, b) == Some(diamond_cell(n, b))
            &&& cell_at(f2, b + 1) == Some(diamond_cell(n, b + 1))
            &&& grew(f2, f3, (1 + 3 * i) as int, seq![CellId((b + 2) as u32), CellId((b + 3) as u32), CellId((b + 4) as u32)])
            &&& cell_at(f3, b + 2) == Some(diamond_cell(n, b + 2))
            &&& cell_at(f3, b + 3) == Some(diamond_cell(n, b + 3))
            &&& cell_at(f3, b + 4) == Some(diamond_cell(n, b + 4))
            &&& grew(f3, f4, (2 + 3 * i) as int, seq![CellId((b + 5) as u32), CellId((b + 6) as u32), CellId((b + 7) as u32)])
            &&& cell_at(f4, b + 5) == Some(diamond_cell(n, b + 5))
            &&& cell_at(f4, b + 6) == Some(diamond_cell(n, b + 6))
            &&& cell_at(f4, b + 7) == Some(diamond_cell(n, b + 7))
            &&& grew(f4, f5, (3 + 3 * i) as int, seq![CellId((b + 8) as u32)])
            &&& cell_at(f5, b + 8) == Some(diamond_cell(n, b + 8))
            &&& if i + 1 == n {
                &&& grew(f5, f6, (3 + 3 * i) as int, seq![CellId((b + 9) as u32)])
                &&& cell_at(f6, b + 9) == Some(diamond_cell(n, b + 9))
            } else {
                f6 == f5
            }
        }),
    ensures
        forall|r: int| 0 <= r < f6.regions@.len() ==> (#[trigger] f6.regions@[r]).name@ == diamond_name(r),
{
    let ii = i as int;
    let bb = 2 + 9 * ii;
    let sp = split_region(ii);
    let ti = 1 + 3 * ii;
    let ei = 2 + 3 * ii;
    let ji = 3 + 3 * ii;
    lemma_div3(ii, 1);
    lemma_div3(ii, 2);
    lemma_div3(ii, 3);
    assert forall|r: int| 0 <= r < f6.regions@.len() implies (#[trigger] f6.regions@[r]).name@ == diamond_name(r) by {
        assert(f6.regions@[r].name@ == f5.regions@[r].name@);
        assert(f5.regions@[r].name@ == f4.regions@[r].name@);
        assert(f4.regions@[r].name@ == f3.regions@[r].name@);
        assert(f3.regions@[r].name@ == f2.regions@[r].name@);
        assert(f2.regions@[r].name@ == f1.regions@[r].name@);
        if r < ti {
            assert(f1.regions@[r] == f0.regions@[r]);
        }
    }
}

/// Diamond `i`'s region lists are the promised ones.
#[verifier::spinoff_prover]
#[verifier::rlimit(100)]
proof fn lemma_step_lists(
    f0: Fabric,
    f1: Fabric,
    f2: Fabric,
    f3: Fabric,
    f4: Fabric,
    f5: Fabric,
    f6: Fabric,
    n: nat,
    i: nat,
)
    requires
        diamonds_built(f0, n, i),
        i < n,
        f1.wf(),
        ops_below(f1),
        f1.slab == f0.slab,
        f1.regions@.len() == f0.regions@.len() + 3,
        forall|q: int| 0 <= q < f0.regions@.len() ==> #[trigger] f1.regions@[q] == f0.regions@[q],
        f1.regions@[(1 + 3 * i) as int].name@ == "t"@ + dec(i),
        f1.regions@[(2 + 3 * i) as int].name@ == "e"@ + dec(i),
        f1.regions@[(3 + 3 * i) as int].name@ == "j"@ + dec(i),
        f1.regions@[(1 + 3 * i) as int].cells@.len() == 0,
        f1.regions@[(2 + 3 * i) as int].cells@.len() == 0,
        f1.regions@[(3 + 3 * i) as int].cells@.len() == 0,
        ({
            let b = (2 + 9 * i) as int;
            &&& grew(f1, f2, split_region(i as int), seq![CellId(b as u32), CellId((b + 1) as u32)])
            &&& cell_at(f2, b) == Some(diamond_cell(n, b))
            &&& cell_at(f2, b + 1) == Some(diamond_cell(n, b + 1))
            &&& grew(f2, f3, (1 + 3 * i) as int, seq![CellId((b + 2) as u32), CellId((b + 3) as u32), CellId((b + 4) as u32)])
            &&& cell_at(f3, b + 2) == Some(diamond_cell(n, b + 2))
            &&& cell_at(f3, b + 3) == Some(diamond_cell(n, b + 3))
            &&& cell_at(f3, b + 4) == Some(diamond_cell(n, b + 4))
            &&& grew(f3, f4, (2 + 3 * i) as int, seq![CellId((b + 5) as u32), CellId((b + 6) as u32), CellId((b + 7) as u32)])
            &&& cell_at(f4, b + 5) == Some(diamond_cell(n, b + 5))
            &&& cell_at(f4, b + 6) == Some(diamond_cell(n, b + 6))
            &&& cell_at(f4, b + 7) == Some(diamond_cell(n, b + 7))
            &&& grew(f4, f5, (3 + 3 * i) as int, seq![CellId((b + 8) as u32)])
            &&& cell_at(f5, b + 8) == Some(diamond_cell(n, b + 8))
            &&& if i + 1 == n {
                &&& grew(f5, f6, (3 + 3 * i) as int, seq![CellId((b + 9) as u32)])
                &&& cell_at(f6, b + 9) == Some(diamond_cell(n, b + 9))
            } else {
                f6 == f5
            }
        }),
    ensures
        forall|r: int| 0 <= r < f6.regions@.len() && (r != split_region((i + 1) as int) || (i + 1 == n && n > 0)) ==> (
        #[trigger] f6.regions@[r]).cells@ == diamond_list(n, r),
        !(i + 1 == n) ==> f6.regions@[split_region((i + 1) as int)].cells@ == seq![CellId((1 + 9 * (i + 1)) as u32)],
{
    let ii = i as int;
    let bb = 2 + 9 * ii;
    let sp = split_region(ii);
    let ti = 1 + 3 * ii;
    let ei = 2 + 3 * ii;
    let ji = 3 + 3 * ii;
    lemma_div3(ii, 1);
    lemma_div3(ii, 2);
    lemma_div3(ii, 3);
    assert forall|r: int| 0 <= r < f6.regions@.len() && (r != split_region(ii + 1) || (ii + 1 == n && n > 0)) implies (
    #[trigger] f6.regions@[r]).cells@ == diamond_list(n, r) by {
        if r < ti && r != sp {
            assert(f6.regions@[r].cells@ == f5.regions@[r].cells@);
            assert(f5.regions@[r].cells@ == f4.regions@[r].cells@);
            assert(f4.regions@[r].cells@ == f3.regions@[r].cells@);
            assert(f3.regions@[r].cells@ == f2.regions@[r].cells@);
            assert(f2.regions@[r].cells@ == f1.regions@[r].cells@);
            assert(f1.regions@[r] == f0.regions@[r]);
        } else if r == sp {
            assert(f1.regions@[r] == f0.regions@[r]);
            assert(f6.regions@[r].cells@ == f5.regions@[r].cells@);
            assert(f5.regions@[r].cells@ == f4.regions@[r].cells@);
            assert(f4.regions@[r].cells@ == f3.regions@[r].cells@);
            assert(f3.regions@[r].cells@ == f2.regions@[r].cells@);
            if ii == 0 {
                assert(f6.regions@[r].cells@ =~= diamond_list(n, r));
            } else {
                lemma_div3(ii - 1, 3);
                assert(f6.regions@[r].cells@ =~= diamond_list(n, r));
            }
        } else if r == ti {
            assert(f6.regions@[r].cells@ == f5.regions@[r].cells@);
            assert(f5.regions@[r].cells@ == f4.regions@[r].cells@);
            assert(f4.regions@[r].cells@ == f3.regions@[r].cells@);
            assert(f6.regions@[r].cells@ =~= diamond_list(n, r));
        } else if r == ei {
            assert(f6.regions@[r].cells@ == f5.regions@[r].cells@);
            assert(f5.regions@[r].cells@ == f4.regions@[r].cells@);
            assert(f6.regions@[r].cells@ =~= diamond_list(n, r));
        } else {
            assert(r == ji);
            assert(f6.regions@[r].cells@ =~= diamond_list(n, r));
        }
    }
    if !(ii + 1 == n) {
        assert(f6.regions@[ji].cells@ =~= seq![CellId((1 + 9 * (ii + 1)) as u32)]);
    }
}

/// The three arms of diamond `i` of `diamonds(n)` appended one after
/// another give the shape after `i + 1` diamonds.
#[verifier::spinoff_prover]
#[verifier::rlimit(100)]
proof fn lemma_diamond_step(
    f0: Fabric,
    f1: Fabric,
    f2: Fabric,
    f3: Fabric,
    f4: Fabric,
    f5: Fabric,
    f6: Fabric,
    n: nat,
    i: nat,
)
    requires
        diamonds_built(f0, n, i),
        i < n,
        f1.wf(),
        ops_below(f1),
        f1.slab == f0.slab,
        f1.regions@.len() == f0.regions@.len() + 3,
        forall|q: int| 0 <= q < f0.regions@.len() ==> #[trigger] f1.regions@[q] == f0.regions@[q],
        f1.regions@[(1 + 3 * i) as int].name@ == "t"@ + dec(i),
        f1.regions@[(2 + 3 * i) as int].name@ == "e"@ + dec(i),
        f1.regions@[(3 + 3 * i) as int].name@ == "j"@ + dec(i),
        f1.regions@[(1 + 3 * i) as int].cells@.len() == 0,
        f1.regions@[(2 + 3 * i) as int].cells@.len() == 0,
        f1.regions@[(3 + 3 * i) as int].cells@.len() == 0,
        ({
            let b = (2 + 9 * i) as int;
            &&& grew(f1, f2, split_region(i as int), seq![CellId(b as u32), CellId((b + 1) as u32)])
            &&& cell_at(f2, b) == Some(diamond_cell(n, b))
            &&& cell_at(f2, b + 1) == Some(diamond_cell(n, b + 1))
            &&& grew(f2, f3, (1 + 3 * i) as int, seq![CellId((b + 2) as u32), CellId((b + 3) as u32), CellId((b + 4) as u32)])
            &&& cell_at(f3, b + 2) == Some(diamond_cell(n, b + 2))
            &&& cell_at(f3, b + 3) == Some(diamond_cell(n, b + 3))
            &&& cell_at(f3, b + 4) == Some(diamond_cell(n, b + 4))
            &&& grew(f3, f4, (2 + 3 * i) as int, seq![CellId((b + 5) as u32), CellId((b + 6) as u32), CellId((b + 7) as u32)])
            &&& cell_at(f4, b + 5) == Some(diamond_cell(n, b + 5))
            &&& cell_at(f4, b + 6) == Some(diamond_cell(n, b + 6))
            &&& cell_at(f4, b + 7) == Some(diamond_cell(n, b + 7))
            &&& grew(f4, f5, (3 + 3 * i) as int, seq![CellId((b + 8) as u32)])
            &&& cell_at(f5, b + 8) == Some(diamond_cell(n, b + 8))
            &&& if i + 1 == n {
                &&& grew(f5, f6, (3 + 3 * i) as int, seq![CellId((b + 9) as u32)])
                &&& cell_at(f6, b + 9) == Some(diamond_cell(n, b + 9))
            } else {
                f6 == f5
            }
        }),
    ensures
        diamonds_built(f6, n, i + 1),
{
    lemma_step_cells(f0, f1, f2, f3, f4, f5, f6, n, i);
    lemma_step_names(f0, f1, f2, f3, f4, f5, f6, n, i);
    lemma_step_lists(f0, f1, f2, f3, f4, f5, f6, n, i);
    if i + 1 == n {
        assert(grew(f5, f6, (3 + 3 * i) as int, seq![CellId((2 + 9 * i + 9) as u32)]));
    }
}

/// Build diamond `i`: its three regions, the split's comparison and
/// branch, both arms, the join's phi, and for the last the return.
#[verifier::spinoff_prover]
#[verifier::rlimit(100)]
fn build_diamond(f: &mut Fabric, n: u64, i: u64)
    requires
        diamonds_built(*old(f), n as nat, i as nat),
        i < n,
        3 * n + 1 < crate::usetables::ROW_GROW_LIMIT,
    ensures
        diamonds_built(*final(f), n as nat, (i + 1) as nat),
{
    let ghost f0 = *f;
    let b = f.slab.len();
    let split = if i == 0 { RegionId(0) } else { RegionId((3 * i) as u32) };
    let tn = indexed_name("t", i);
    let t = f.add_region(tn.as_str());
    let en = indexed_name("e", i);
    let el = f.add_region(en.as_str());
    let jn = indexed_name("j", i);
    let j = f.add_region(jn.as_str());
    let ghost f1 = *f;
    proof {
        assert(f1.slab == f0.slab);
        assert forall|q: int| 0 <= q < f0.regions@.len() implies #[trigger] f1.regions@[q] == f0.regions@[q] by {}
        assert forall|i2: int| cell_at(f1, i2) == cell_at(f0, i2) by {}
        assert(ops_below(f1));
    }
    append_split(f, split, t, el);
    let ghost f2 = *f;
    append_arm(f, t, 1, CellId(0), j);
    let ghost f3 = *f;
    append_arm(f, el, 2, CellId(0), j);
    let ghost f4 = *f;
    let a1 = CellId((b + 3) as u32);
    let a2 = CellId((b + 6) as u32);
    let phi_cell = cell_in(j, CellKind::Phi { joins: vec![t, el] }, vec![a1, a2]);
    assert(phi_cell@.operands =~= seq![a1, a2]);
    assert(phi_cell@.kind == KindV::Phi { joins: seq![t, el] }) by {
        assert(phi_cell@.kind->joins =~= seq![t, el]);
    }
    let phi = append_cell(f, j, phi_cell);
    let ghost f5 = *f;
    if i + 1 == n {
        let ret_cell = cell_in(j, CellKind::Ret, vec![phi]);
        assert(ret_cell@.operands =~= seq![phi]);
        append_cell(f, j, ret_cell);
    }
    proof {
        let ii = i as int;
        let bb = 2 + 9 * ii;
        assert(b == bb);
        lemma_div3(ii, 1);
        lemma_div3(ii, 2);
        lemma_div3(ii, 3);
        lemma_div9(ii, 0);
        lemma_div9(ii, 1);
        lemma_div9(ii, 2);
        lemma_div9(ii, 3);
        lemma_div9(ii, 4);
        lemma_div9(ii, 5);
        lemma_div9(ii, 6);
        lemma_div9(ii, 7);
        lemma_div9(ii, 8);
        assert(cell_at(f2, bb) == Some(diamond_cell(n as nat, bb)));
        assert(cell_at(f2, bb + 1) == Some(diamond_cell(n as nat, bb + 1)));
        assert(cell_at(f3, bb + 2) == Some(diamond_cell(n as nat, bb + 2)));
        assert(cell_at(f3, bb + 3) == Some(diamond_cell(n as nat, bb + 3)));
        assert(cell_at(f3, bb + 4) == Some(diamond_cell(n as nat, bb + 4)));
        assert(cell_at(f4, bb + 5) == Some(diamond_cell(n as nat, bb + 5)));
        assert(cell_at(f4, bb + 6) == Some(diamond_cell(n as nat, bb + 6)));
        assert(cell_at(f4, bb + 7) == Some(diamond_cell(n as nat, bb + 7)));
        assert(cell_at(f5, bb + 8) == Some(diamond_cell(n as nat, bb + 8)));
        if i + 1 == n {
            assert(cell_at(*f, bb + 9) == Some(diamond_cell(n as nat, bb + 9)));
        }
        lemma_diamond_step(f0, f1, f2, f3, f4, f5, *f, n as nat, i as nat);
    }
}

/// `n` diamonds chained: the entry branches into diamond 0; each join
/// branches into the next diamond; the last join returns its phi. The
/// arms compute from the entry param.
pub fn diamonds(n: u64) -> (f: Fabric)
    requires
        3 * n + 1 < crate::usetables::ROW_GROW_LIMIT,
    ensures
        f.wf(),
        f.regions@.len() == 1 + 3 * n,
        f.slab@.len() == 2 + 9 * n + if n > 0 { 1int } else { 0int },
        forall|id: int| 0 <= id < f.slab@.len() ==> #[trigger] cell_at(f, id) == Some(diamond_cell(n as nat, id)),
        forall|r: int| 0 <= r < f.regions@.len() ==> (#[trigger] f.regions@[r]).name@ == diamond_name(r)
            && f.regions@[r].cells@ == diamond_list(n as nat, r),
{
    let mut f = Fabric::empty();
    let e = f.add_region("entry");
    let ghost f0 = f;
    proof {
        assert forall|i: int, k: int| #[trigger] cell_at(f0, i) is Some && 0 <= k < cell_at(f0, i)->0.operands.len()
            implies (#[trigger] cell_at(f0, i)->0.operands[k]).0 < f0.slab@.len() by {}
    }
    append_cell(&mut f, e, cell_in(e, CellKind::Param { ty: Type::I32 }, Vec::new()));
    append_cell(&mut f, e, cell_in(e, CellKind::Const { ty: Type::I32, val: ConstVal::I32(0) }, Vec::new()));
    proof {
        reveal_strlit("entry");
        assert(f.regions@[0].cells@ =~= seq![CellId(0), CellId(1)]);
        assert(diamond_name(0) == "entry"@);
        if n == 0 {
            assert(f.regions@[0].cells@ =~= diamond_list(n as nat, 0));
        }
    }
    let mut i: u64 = 0;
    while i < n
        invariant
            3 * n + 1 < crate::usetables::ROW_GROW_LIMIT,
            i <= n,
            diamonds_built(f, n as nat, i as nat),
        decreases n - i,
    {
        build_diamond(&mut f, n, i);
        i = i + 1;
    }
    proof {
        if n == 0 {
            assert(f.regions@[0].cells@ == diamond_list(n as nat, 0));
        }
    }
    f
}

/// The width of each layer of `dense_dag(n, _)`.
pub open spec fn dag_width(n: nat) -> nat {
    if n / 8 > 2 {
        n / 8
    } else {
        2
    }
}

/// The number of layers of `dense_dag(n, _)`.
pub open spec fn dag_depth(n: nat) -> nat {
    if n / dag_width(n) > 1 {
        n / dag_width(n)
    } else {
        1
    }
}

/// Id `x` lies in layer `l` of a dag of width `w`: the two params for
/// layer 0, the adds `2 + (l - 1) * w ..` after.
pub open spec fn in_layer(x: int, l: int, w: int) -> bool {
    if l == 0 {
        0 <= x < 2
    } else {
        2 + (l - 1) * w <= x < 2 + l * w
    }
}

/// Cell `c` is an add whose two operands lie in layer `l`.
pub open spec fn add_over_layer(c: CellV, l: int, w: int) -> bool {
    &&& c.region == RegionId(0)
    &&& c.kind == (KindV::Arith { op: ArithOp::Add, ty: Type::I32 })
    &&& c.operands.len() == 2
    &&& in_layer(c.operands[0].0 as int, l, w)
    &&& in_layer(c.operands[1].0 as int, l, w)
}

/// The add at position `k` of layer `l + 1` reads layer `l`.
pub open spec fn dag_add(f: Fabric, l: int, k: int, w: int) -> bool {
    cell_at(f, 2 + l * w + k) is Some && add_over_layer(cell_at(f, 2 + l * w + k)->0, l, w)
}

proof fn lemma_dag_size(n: nat)
    ensures
        dag_width(n) >= 2,
        dag_depth(n) >= 1,
        dag_depth(n) * dag_width(n) <= n + 2,
{
    let w = dag_width(n);
    let q = n / w;
    assert(q * w <= n) by (nonlinear_arith)
        requires
            w >= 2,
            q == n / w,
    ;
    if q <= 1 {
        if n / 8 > 2 {
            assert(n >= 24);
            assert(w <= n) by (nonlinear_arith)
                requires
                    w == n / 8,
                    n >= 24,
            ;
        }
    }
}

/// Layered dense DAG of adds over two params: `dag_depth(n)` layers of
/// `dag_width(n)` adds, each add reading two cells of the layer before
/// (picked by the generator seeded with `seed`), and a return of the last
/// add.
pub fn dense_dag(n: u64, seed: u64) -> (f: Fabric)
    requires
        n + 5 < u32::MAX,
    ensures
        entry_only(f),
        f.slab@.len() == 3 + dag_depth(n as nat) * dag_width(n as nat),
        cell_at(f, 0) == Some(CellV { region: RegionId(0), kind: KindV::Param { ty: Type::I32 }, operands: Seq::empty() }),
        cell_at(f, 1) == Some(CellV { region: RegionId(0), kind: KindV::Param { ty: Type::I32 }, operands: Seq::empty() }),
        forall|l: int, k: int| 0 <= l < dag_depth(n as nat) && 0 <= k < dag_width(n as nat) ==> #[trigger] dag_add(
            f,
            l,
            k,
            dag_width(n as nat) as int,
        ),
        cell_at(f, f.slab@.len() - 1) == Some(CellV { region: RegionId(0), kind: KindV::Ret, operands: seq![CellId((f.slab@.len() - 2) as u32)] }),
{
    proof { lemma_dag_size(n as nat); }
    let mut rng = crate::fuzz::Rng::new(seed);
    let mut f = entry_fabric();
    let p1 = add_entry_cell(&mut f, make_cell(CellKind::Param { ty: Type::I32 }, Vec::new()));
    let p2 = add_entry_cell(&mut f, make_cell(CellKind::Param { ty: Type::I32 }, Vec::new()));
    let mut layer: Vec<CellId> = vec![p1, p2];
    let per_layer: u64 = if n / 8 > 2 { n / 8 } else { 2 };
    let layers: u64 = if n / per_layer > 1 { n / per_layer } else { 1 };
    let ghost w = per_layer as int;
    let ghost d = layers as int;
    assert(per_layer == dag_width(n as nat));
    assert(layers == dag_depth(n as nat));
    let mut l: u64 = 0;
    while l < layers
        invariant
            n + 5 < u32::MAX,
            w == per_layer,
            d == layers,
            w >= 2,
            d * w <= n + 2,
            l <= layers,
            entry_only(f),
            f.slab@.len() == 2 + l * w,
            layer@.len() == if l == 0 { 2 } else { w },
            forall|x: int| 0 <= x < layer@.len() ==> in_layer((#[trigger] layer@[x]).0 as int, l as int, w),
            forall|x: int| 0 <= x < layer@.len() ==> (#[trigger] layer@[x]).0 == if l == 0 { x } else { 2 + (l - 1) * w + x },
            cell_at(f, 0) == Some(CellV { region: RegionId(0), kind: KindV::Param { ty: Type::I32 }, operands: Seq::empty() }),
            cell_at(f, 1) == Some(CellV { region: RegionId(0), kind: KindV::Param { ty: Type::I32 }, operands: Seq::empty() }),
            forall|a: int, k: int| 0 <= a < l && 0 <= k < w ==> #[trigger] dag_add(f, a, k, w),
        decreases layers - l,
    {
        proof {
            assert((l + 1) * w <= d * w) by (nonlinear_arith)
                requires
                    l + 1 <= d,
                    w >= 0,
            ;
        }
        let mut next: Vec<CellId> = Vec::new();
        let mut k: u64 = 0;
        let ghost f_l = f;
        while k < per_layer
            invariant
                n + 5 < u32::MAX,
                w == per_layer,
                w >= 2,
                d * w <= n + 2,
                (l + 1) * w <= d * w,
                l < layers,
                entry_only(f),
                k <= per_layer,
                f.slab@.len() == 2 + l * w + k,
                next@.len() == k,
                forall|x: int| 0 <= x < next@.len() ==> (#[trigger] next@[x]).0 == 2 + l * w + x,
                layer@.len() == if l == 0 { 2 } else { w },
                layer@.len() >= 2,
                forall|x: int| 0 <= x < layer@.len() ==> in_layer((#[trigger] layer@[x]).0 as int, l as int, w),
                forall|x: int| 0 <= x < layer@.len() ==> (#[trigger] layer@[x]).0 < 2 + l * w,
                forall|i: int| 0 <= i < 2 + l * w ==> #[trigger] cell_at(f, i) == cell_at(f_l, i),
                forall|j: int| 0 <= j < k ==> #[trigger] dag_add(f, l as int, j, w),
            decreases per_layer - k,
        {
            proof {
                assert(l * w + k < (l + 1) * w) by (nonlinear_arith)
                    requires
                        k < w,
                ;
                assert forall|x: int| 0 <= x < layer@.len() implies (#[trigger] layer@[x]).0 < 2 + l * w by {
                    if l > 0 {
                        assert(in_layer(layer@[x].0 as int, l as int, w));
                    }
                }
            }
            let ia = rng.below(layer.len() as u64) as usize;
            let a = layer[ia];
            let ib = rng.below(layer.len() as u64) as usize;
            let b = layer[ib];
            let c = make_cell(CellKind::Arith { op: ArithOp::Add, ty: Type::I32 }, vec![a, b]);
            let ghost cv = c@;
            let ghost f_k = f;
            let id = add_entry_cell(&mut f, c);
            next.push(id);
            proof {
                assert(cv.operands =~= seq![a, b]);
                assert(layer@.contains(a) && layer@.contains(b)) by {
                    assert(layer@[ia as int] == a);
                    assert(layer@[ib as int] == b);
                }
                assert(in_layer(a.0 as int, l as int, w)) by {
                    assert(layer@[ia as int] == a);
                }
                assert(in_layer(b.0 as int, l as int, w)) by {
                    assert(layer@[ib as int] == b);
                }
                assert(add_over_layer(cv, l as int, w));
                assert forall|j: int| 0 <= j < k + 1 implies #[trigger] dag_add(f, l as int, j, w) by {
                    if j < k {
                        assert(dag_add(f_k, l as int, j, w));
                        assert(cell_at(f, 2 + l * w + j) == cell_at(f_k, 2 + l * w + j));
                    } else {
                        assert(id.0 == 2 + l * w + k);
                        assert(cell_at(f, id.0 as int) == Some(cv));
                    }
                }
                assert forall|i: int| 0 <= i < 2 + l * w implies #[trigger] cell_at(f, i) == cell_at(f_l, i) by {
                    assert(cell_at(f, i) == cell_at(f_k, i));
                }
            }
            k = k + 1;
        }
        proof {
            assert forall|x: int| 0 <= x < next@.len() implies in_layer((#[trigger] next@[x]).0 as int, (l + 1) as int, w) by {
                assert(next@[x].0 == 2 + l * w + x);
                assert(2 + ((l + 1) - 1) * w == 2 + l * w);
                assert(2 + (l + 1) * w == 2 + l * w + w) by (nonlinear_arith);
            }
            assert((l + 1) * w == l * w + w) by (nonlinear_arith);
            assert forall|a: int, j: int| 0 <= a < l + 1 && 0 <= j < w implies #[trigger] dag_add(f, a, j, w) by {
                if a < l {
                    assert(a * w + j < l * w) by (nonlinear_arith)
                        requires
                            a < l,
                            j < w,
                            0 <= j,
                    ;
                    assert(dag_add(f_l, a, j, w));
                    assert(cell_at(f, 2 + a * w + j) == cell_at(f_l, 2 + a * w + j));
                } else {
                    assert(a == l);
                    assert(dag_add(f, l as int, j, w));
                }
            }
        }
        layer = next;
        l = l + 1;
    }
    proof {
        assert(layer@.len() >= 1);
        assert(l == d);
        assert(layer@[layer@.len() - 1].0 == 2 + (d - 1) * w + (w - 1));
        assert((d - 1) * w + w == d * w) by (nonlinear_arith);
    }
    let last = layer[layer.len() - 1];
    let r = make_cell(CellKind::Ret, vec![last]);
    let ghost rv = r@;
    let ghost f_end = f;
    add_entry_cell(&mut f, r);
    proof {
        assert(rv.operands =~= seq![last]);
        assert(cell_at(f, 0) == cell_at(f_end, 0));
        assert(cell_at(f, 1) == cell_at(f_end, 1));
        assert forall|a: int, j: int| 0 <= a < d && 0 <= j < w implies #[trigger] dag_add(f, a, j, w) by {
            assert(a * w + j < d * w) by (nonlinear_arith)
                requires
                    a < d,
                    j < w,
                    0 <= j,
            ;
            assert(dag_add(f_end, a, j, w));
            assert(cell_at(f, 2 + a * w + j) == cell_at(f_end, 2 + a * w + j));
        }
    }
    f
}

} // verus!
