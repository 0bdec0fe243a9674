//! Cells: the unit of compilation. A cell has a kind, zero or more
//! operand wires (use edges), and lives in exactly one region.

use vstd::prelude::*;
use crate::chars::chars_eq_str;
use crate::id::{CellId, RegionId};
use crate::ty::Type;

verus! {

#[derive(Clone, Copy, PartialEq, Eq, Debug, Structural)]
pub enum ArithOp {
    Add,
    Sub,
    Mul,
    Div,
}

pub open spec fn arith_text(op: ArithOp) -> Seq<char> {
    match op {
        ArithOp::Add => seq!['a', 'r', 'i', 't', 'h', '.', 'a', 'd', 'd'],
        ArithOp::Sub => seq!['a', 'r', 'i', 't', 'h', '.', 's', 'u', 'b'],
        ArithOp::Mul => seq!['a', 'r', 'i', 't', 'h', '.', 'm', 'u', 'l'],
        ArithOp::Div => seq!['a', 'r', 'i', 't', 'h', '.', 'd', 'i', 'v'],
    }
}

pub open spec fn arith_from_text(s: Seq<char>) -> Option<ArithOp> {
    if s == arith_text(ArithOp::Add) {
        Some(ArithOp::Add)
    } else if s == arith_text(ArithOp::Sub) {
        Some(ArithOp::Sub)
    } else if s == arith_text(ArithOp::Mul) {
        Some(ArithOp::Mul)
    } else if s == arith_text(ArithOp::Div) {
        Some(ArithOp::Div)
    } else {
        None
    }
}

impl ArithOp {
    pub fn name(self) -> (r: &'static str)
        ensures
            r@ == arith_text(self),
            self is Add ==> r@ == "arith.add"@,
            self is Sub ==> r@ == "arith.sub"@,
            self is Mul ==> r@ == "arith.mul"@,
            self is Div ==> r@ == "arith.div"@,
    {
        proof {
            lemma_arith_mnemonics();
        }
        match self {
            ArithOp::Add => {
                proof { reveal_strlit("arith.add"); }
                "arith.add"
            },
            ArithOp::Sub => {
                proof { reveal_strlit("arith.sub"); }
                "arith.sub"
            },
            ArithOp::Mul => {
                proof { reveal_strlit("arith.mul"); }
                "arith.mul"
            },
            ArithOp::Div => {
                proof { reveal_strlit("arith.div"); }
                "arith.div"
            },
        }
    }

    pub fn parse(s: &str) -> (r: Option<ArithOp>)
        ensures
            r == arith_from_text(s@),
            s@ == "arith.add"@ ==> r == Some(ArithOp::Add),
            s@ == "arith.sub"@ ==> r == Some(ArithOp::Sub),
            s@ == "arith.mul"@ ==> r == Some(ArithOp::Mul),
            s@ == "arith.div"@ ==> r == Some(ArithOp::Div),
    {
        proof {
            lemma_arith_mnemonics();
        }
        let v = crate::chars::chars_of(s);
        if chars_eq_str(&v, ArithOp::Add.name()) {
            Some(ArithOp::Add)
        } else if chars_eq_str(&v, ArithOp::Sub.name()) {
            Some(ArithOp::Sub)
        } else if chars_eq_str(&v, ArithOp::Mul.name()) {
            Some(ArithOp::Mul)
        } else if chars_eq_str(&v, ArithOp::Div.name()) {
            Some(ArithOp::Div)
        } else {
            None
        }
    }
}

/// Each arithmetic op is written as its own mnemonic (`arith.add`,
/// `arith.sub`, `arith.mul`, `arith.div`), and reading a mnemonic gives
/// that op back.
pub proof fn lemma_arith_mnemonics()
    ensures
        arith_text(ArithOp::Add) == "arith.add"@,
        arith_text(ArithOp::Sub) == "arith.sub"@,
        arith_text(ArithOp::Mul) == "arith.mul"@,
        arith_text(ArithOp::Div) == "arith.div"@,
        arith_from_text("arith.add"@) == Some(ArithOp::Add),
        arith_from_text("arith.sub"@) == Some(ArithOp::Sub),
        arith_from_text("arith.mul"@) == Some(ArithOp::Mul),
        arith_from_text("arith.div"@) == Some(ArithOp::Div),
{
    reveal_strlit("arith.add");
    reveal_strlit("arith.sub");
    reveal_strlit("arith.mul");
    reveal_strlit("arith.div");
    assert(arith_text(ArithOp::Add) =~= "arith.add"@);
    assert(arith_text(ArithOp::Sub) =~= "arith.sub"@);
    assert(arith_text(ArithOp::Mul) =~= "arith.mul"@);
    assert(arith_text(ArithOp::Div) =~= "arith.div"@);
    lemma_arith_name_round_trip(ArithOp::Add);
    lemma_arith_name_round_trip(ArithOp::Sub);
    lemma_arith_name_round_trip(ArithOp::Mul);
    lemma_arith_name_round_trip(ArithOp::Div);
}

/// Each comparison op is written as its own mnemonic (`cmp.eq`,
/// `cmp.ne`, `cmp.lt`, `cmp.le`, `cmp.gt`, `cmp.ge`), and reading a
/// mnemonic gives that op back.
pub proof fn lemma_cmp_mnemonics()
    ensures
        cmp_text(CmpOp::Eq) == "cmp.eq"@,
        cmp_text(CmpOp::Ne) == "cmp.ne"@,
        cmp_text(CmpOp::Lt) == "cmp.lt"@,
        cmp_text(CmpOp::Le) == "cmp.le"@,
        cmp_text(CmpOp::Gt) == "cmp.gt"@,
        cmp_text(CmpOp::Ge) == "cmp.ge"@,
        cmp_from_text("cmp.eq"@) == Some(CmpOp::Eq),
        cmp_from_text("cmp.ne"@) == Some(CmpOp::Ne),
        cmp_from_text("cmp.lt"@) == Some(CmpOp::Lt),
        cmp_from_text("cmp.le"@) == Some(CmpOp::Le),
        cmp_from_text("cmp.gt"@) == Some(CmpOp::Gt),
        cmp_from_text("cmp.ge"@) == Some(CmpOp::Ge),
{
    reveal_strlit("cmp.eq");
    reveal_strlit("cmp.ne");
    reveal_strlit("cmp.lt");
    reveal_strlit("cmp.le");
    reveal_strlit("cmp.gt");
    reveal_strlit("cmp.ge");
    assert(cmp_text(CmpOp::Eq) =~= "cmp.eq"@);
    assert(cmp_text(CmpOp::Ne) =~= "cmp.ne"@);
    assert(cmp_text(CmpOp::Lt) =~= "cmp.lt"@);
    assert(cmp_text(CmpOp::Le) =~= "cmp.le"@);
    assert(cmp_text(CmpOp::Gt) =~= "cmp.gt"@);
    assert(cmp_text(CmpOp::Ge) =~= "cmp.ge"@);
    assert(cmp_text(CmpOp::Eq)[4] != cmp_text(CmpOp::Ne)[4]);
    assert(cmp_text(CmpOp::Eq)[4] != cmp_text(CmpOp::Lt)[4]);
    assert(cmp_text(CmpOp::Eq)[4] != cmp_text(CmpOp::Le)[4]);
    assert(cmp_text(CmpOp::Eq)[4] != cmp_text(CmpOp::Gt)[4]);
    assert(cmp_text(CmpOp::Eq)[4] != cmp_text(CmpOp::Ge)[4]);
    assert(cmp_text(CmpOp::Ne)[4] != cmp_text(CmpOp::Lt)[4]);
    assert(cmp_text(CmpOp::Ne)[4] != cmp_text(CmpOp::Le)[4]);
    assert(cmp_text(CmpOp::Ne)[4] != cmp_text(CmpOp::Gt)[4]);
    assert(cmp_text(CmpOp::Ne)[4] != cmp_text(CmpOp::Ge)[4]);
    assert(cmp_text(CmpOp::Lt)[5] != cmp_text(CmpOp::Le)[5]);
    assert(cmp_text(CmpOp::Lt)[4] != cmp_text(CmpOp::Gt)[4]);
    assert(cmp_text(CmpOp::Lt)[4] != cmp_text(CmpOp::Ge)[4]);
    assert(cmp_text(CmpOp::Le)[4] != cmp_text(CmpOp::Gt)[4]);
    assert(cmp_text(CmpOp::Le)[4] != cmp_text(CmpOp::Ge)[4]);
    assert(cmp_text(CmpOp::Gt)[5] != cmp_text(CmpOp::Ge)[5]);
}

/// Parsing the name of an arithmetic op gives the op back.
pub proof fn lemma_arith_name_round_trip(op: ArithOp)
    ensures
        arith_from_text(arith_text(op)) == Some(op),
{
    assert(arith_text(ArithOp::Add)[6] != arith_text(ArithOp::Sub)[6]);
    assert(arith_text(ArithOp::Add)[6] != arith_text(ArithOp::Mul)[6]);
    assert(arith_text(ArithOp::Add)[6] != arith_text(ArithOp::Div)[6]);
    assert(arith_text(ArithOp::Sub)[6] != arith_text(ArithOp::Mul)[6]);
    assert(arith_text(ArithOp::Sub)[6] != arith_text(ArithOp::Div)[6]);
    assert(arith_text(ArithOp::Mul)[6] != arith_text(ArithOp::Div)[6]);
}

#[derive(Clone, Copy, PartialEq, Eq, Debug, Structural)]
pub enum CmpOp {
    Eq,
    Ne,
    Lt,
    Le,
    Gt,
    Ge,
}

pub open spec fn cmp_text(op: CmpOp) -> Seq<char> {
    match op {
        CmpOp::Eq => seq!['c', 'm', 'p', '.', 'e', 'q'],
        CmpOp::Ne => seq!['c', 'm', 'p', '.', 'n', 'e'],
        CmpOp::Lt => seq!['c', 'm', 'p', '.', 'l', 't'],
        CmpOp::Le => seq!['c', 'm', 'p', '.', 'l', 'e'],
        CmpOp::Gt => seq!['c', 'm', 'p', '.', 'g', 't'],
        CmpOp::Ge => seq!['c', 'm', 'p', '.', 'g', 'e'],
    }
}

pub open spec fn cmp_from_text(s: Seq<char>) -> Option<CmpOp> {
    if s == cmp_text(CmpOp::Eq) {
        Some(CmpOp::Eq)
    } else if s == cmp_text(CmpOp::Ne) {
        Some(CmpOp::Ne)
    } else if s == cmp_text(CmpOp::Lt) {
        Some(CmpOp::Lt)
    } else if s == cmp_text(CmpOp::Le) {
        Some(CmpOp::Le)
    } else if s == cmp_text(CmpOp::Gt) {
        Some(CmpOp::Gt)
    } else if s == cmp_text(CmpOp::Ge) {
        Some(CmpOp::Ge)
    } else {
        None
    }
}

impl CmpOp {
    pub fn name(self) -> (r: &'static str)
        ensures
            r@ == cmp_text(self),
            self is Eq ==> r@ == "cmp.eq"@,
            self is Ne ==> r@ == "cmp.ne"@,
            self is Lt ==> r@ == "cmp.lt"@,
            self is Le ==> r@ == "cmp.le"@,
            self is Gt ==> r@ == "cmp.gt"@,
            self is Ge ==> r@ == "cmp.ge"@,
    {
        proof {
            lemma_cmp_mnemonics();
        }
        match self {
            CmpOp::Eq => {
                proof { reveal_strlit("cmp.eq"); }
                "cmp.eq"
            },
            CmpOp::Ne => {
                proof { reveal_strlit("cmp.ne"); }
                "cmp.ne"
            },
            CmpOp::Lt => {
                proof { reveal_strlit("cmp.lt"); }
                "cmp.lt"
            },
            CmpOp::Le => {
                proof { reveal_strlit("cmp.le"); }
                "cmp.le"
            },
            CmpOp::Gt => {
                proof { reveal_strlit("cmp.gt"); }
                "cmp.gt"
            },
            CmpOp::Ge => {
                proof { reveal_strlit("cmp.ge"); }
                "cmp.ge"
            },
        }
    }
}

/// The comparison op whose name is `s`, if any (the textual format's
/// `cmp.*` instructions).
pub fn cmp_op_from_name(s: &str) -> (r: Option<CmpOp>)
    ensures
        r == cmp_from_text(s@),
{
    let v = crate::chars::chars_eq_str;
    let c = crate::chars::chars_of(s);
    if v(&c, CmpOp::Eq.name()) {
        Some(CmpOp::Eq)
    } else if v(&c, CmpOp::Ne.name()) {
        Some(CmpOp::Ne)
    } else if v(&c, CmpOp::Lt.name()) {
        Some(CmpOp::Lt)
    } else if v(&c, CmpOp::Le.name()) {
        Some(CmpOp::Le)
    } else if v(&c, CmpOp::Gt.name()) {
        Some(CmpOp::Gt)
    } else if v(&c, CmpOp::Ge.name()) {
        Some(CmpOp::Ge)
    } else {
        None
    }
}

#[derive(Clone, PartialEq, Debug)]
pub enum CellKind {
    /// Function parameter. Only meaningful in the entry region.
    Param { ty: Type },
    /// A constant value.
    Const { ty: Type, val: crate::ty::ConstVal },
    /// Binary arithmetic on two operands of type `ty`.
    Arith { op: ArithOp, ty: Type },
    /// Comparison of two same-typed operands; produces i1.
    Cmp { op: CmpOp },
    /// Conditional terminator: operands[0] is the i1 condition.
    Branch { then_r: RegionId, else_r: RegionId },
    /// Unconditional terminator.
    Jump { target: RegionId },
    /// Wire join: joins[i] is the predecessor region from which
    /// operands[i] carries its value.
    Phi { joins: Vec<RegionId> },
    /// Return terminator. operands[0] is the returned value, if any.
    Ret,
}

#[derive(Clone, PartialEq, Debug)]
pub struct Cell {
    /// The region this cell lives in.
    pub region: RegionId,
    pub kind: CellKind,
    /// Operand wires, in slot order.
    pub operands: Vec<CellId>,
}

/// The mathematical model of a cell kind (a phi's joins as a sequence).
pub enum KindV {
    Param { ty: Type },
    Const { ty: Type, val: crate::ty::ConstVal },
    Arith { op: ArithOp, ty: Type },
    Cmp { op: CmpOp },
    Branch { then_r: RegionId, else_r: RegionId },
    Jump { target: RegionId },
    Phi { joins: Seq<RegionId> },
    Ret,
}

/// The mathematical model of a cell.
pub struct CellV {
    pub region: RegionId,
    pub kind: KindV,
    pub operands: Seq<CellId>,
}

impl View for CellKind {
    type V = KindV;

    open spec fn view(&self) -> KindV {
        match self {
            CellKind::Param { ty } => KindV::Param { ty: *ty },
            CellKind::Const { ty, val } => KindV::Const { ty: *ty, val: *val },
            CellKind::Arith { op, ty } => KindV::Arith { op: *op, ty: *ty },
            CellKind::Cmp { op } => KindV::Cmp { op: *op },
            CellKind::Branch { then_r, else_r } => KindV::Branch { then_r: *then_r, else_r: *else_r },
            CellKind::Jump { target } => KindV::Jump { target: *target },
            CellKind::Phi { joins } => KindV::Phi { joins: joins@ },
            CellKind::Ret => KindV::Ret,
        }
    }
}

impl View for Cell {
    type V = CellV;

    open spec fn view(&self) -> CellV {
        CellV { region: self.region, kind: self.kind@, operands: self.operands@ }
    }
}

/// A copy of a list of cell ids.
pub fn copy_ids(v: &Vec<CellId>) -> (c: Vec<CellId>)
    ensures
        c@ == v@,
{
    let mut c: Vec<CellId> = Vec::new();
    let mut i: usize = 0;
    while i < v.len()
        invariant
            i <= v@.len(),
            c@ == v@.take(i as int),
        decreases v@.len() - i,
    {
        c.push(v[i]);
        i = i + 1;
        assert(c@ =~= v@.take(i as int));
    }
    assert(v@.take(v@.len() as int) =~= v@);
    c
}

impl CellKind {
    /// A copy of this kind.
    pub fn copy(&self) -> (k: CellKind)
        ensures
            k@ == self@,
    {
        match self {
            CellKind::Param { ty } => CellKind::Param { ty: *ty },
            CellKind::Const { ty, val } => CellKind::Const { ty: *ty, val: *val },
            CellKind::Arith { op, ty } => CellKind::Arith { op: *op, ty: *ty },
            CellKind::Cmp { op } => CellKind::Cmp { op: *op },
            CellKind::Branch { then_r, else_r } => CellKind::Branch { then_r: *then_r, else_r: *else_r },
            CellKind::Jump { target } => CellKind::Jump { target: *target },
            CellKind::Phi { joins } => CellKind::Phi { joins: crate::usetables::copy_regions(joins) },
            CellKind::Ret => CellKind::Ret,
        }
    }
}

/// The operand placeholder a fresh phi carries in each slot.
pub open spec fn unset_operand() -> CellId {
    CellId(u32::MAX)
}

pub open spec fn kind_is_terminator(k: KindV) -> bool {
    k is Branch || k is Jump || k is Ret
}

impl Cell {
    pub fn new(region: RegionId, kind: CellKind) -> (c: Cell)
        ensures
            c.region == region,
            c.kind@ == kind@,
            match kind@ {
                KindV::Phi { joins } => c.operands@ == Seq::new(joins.len(), |i: int| unset_operand()),
                _ => c.operands@.len() == 0,
            },
    {
        let operands = match &kind {
            CellKind::Phi { joins } => {
                let n = joins.len();
                let mut v: Vec<CellId> = Vec::new();
                let mut i: usize = 0;
                while i < n
                    invariant
                        i <= n,
                        v@ == Seq::new(i as nat, |k: int| unset_operand()),
                    decreases n - i,
                {
                    v.push(CellId(u32::MAX));
                    i = i + 1;
                    assert(v@ =~= Seq::new(i as nat, |k: int| unset_operand()));
                }
                v
            },
            _ => Vec::new(),
        };
        Cell { region, kind, operands }
    }

    /// A copy of this cell.
    pub fn copy(&self) -> (c: Cell)
        ensures
            c@ == self@,
    {
        Cell { region: self.region, kind: self.kind.copy(), operands: copy_ids(&self.operands) }
    }

    /// Terminators end a region; exactly one allowed, and it must be last.
    pub fn is_terminator(&self) -> (b: bool)
        ensures
            b == kind_is_terminator(self.kind@),
    {
        match self.kind {
            CellKind::Branch { .. } | CellKind::Jump { .. } | CellKind::Ret => true,
            _ => false,
        }
    }

    /// Produces a value other cells can use as an operand.
    pub fn produces_value(&self) -> (b: bool)
        ensures
            b == !kind_is_terminator(self.kind@),
    {
        !self.is_terminator()
    }
}

} // verus!
