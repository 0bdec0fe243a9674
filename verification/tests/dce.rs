use llvm_fabric::cell::{ArithOp, Cell, CellKind};
use llvm_fabric::conserve;
use llvm_fabric::dce::dce;
use llvm_fabric::diff::Edit;
use llvm_fabric::fabric::Fabric;
use llvm_fabric::id::CellId;
use llvm_fabric::ty::{ConstVal, Type};

fn fabric_with_dead_code() -> (Fabric, CellId, CellId) {
    let mut f = Fabric::empty();
    let e = f.add_region("entry");
    let p = f.add_cell(e, Cell::new(e, CellKind::Param { ty: Type::I32 }));
    let c = f.add_cell(e, Cell::new(e, CellKind::Const { ty: Type::I32, val: ConstVal::I32(1) }));
    let mut dead_add = Cell::new(e, CellKind::Arith { op: ArithOp::Add, ty: Type::I32 });
    dead_add.operands = vec![p, c];
    let dead_add = f.add_cell(e, dead_add);
    let mut live_add = Cell::new(e, CellKind::Arith { op: ArithOp::Add, ty: Type::I32 });
    live_add.operands = vec![p, p];
    let live_add = f.add_cell(e, live_add);
    let mut r = Cell::new(e, CellKind::Ret);
    r.operands = vec![live_add];
    f.add_cell(e, r);
    (f, c, dead_add)
}

#[test]
fn green_removes_dead_keeps_live() {
    let (f, dead_const, dead_add) = fabric_with_dead_code();
    let (g, rec) = dce(&f).expect("dce");
    assert_ne!(g, f, "dce must change this fabric (red without the pass)");
    assert!(g.cell(dead_const).is_none(), "dead const must go");
    assert!(g.cell(dead_add).is_none(), "dead add must go");
    assert!(g.cell(CellId(3)).is_some(), "live add stays");
    assert!(conserve::check(&f, &g, &rec).is_ok(), "conservation must hold");
    let ledgers: Vec<&String> = rec
        .edits
        .iter()
        .filter_map(|e| match e {
            Edit::RemoveCell { ledger, .. } => Some(ledger),
            _ => None,
        })
        .collect();
    assert_eq!(ledgers.len(), 2, "exactly the two dead cells, both ledgered");
    assert!(ledgers.iter().all(|l| l.contains("dead")));
}

#[test]
fn red_no_dead_code_is_identity() {
    let mut f = Fabric::empty();
    let e = f.add_region("entry");
    let p = f.add_cell(e, Cell::new(e, CellKind::Param { ty: Type::I32 }));
    let mut a = Cell::new(e, CellKind::Arith { op: ArithOp::Add, ty: Type::I32 });
    a.operands = vec![p, p];
    let a = f.add_cell(e, a);
    let mut r = Cell::new(e, CellKind::Ret);
    r.operands = vec![a];
    f.add_cell(e, r);
    let (g, rec) = dce(&f).expect("dce");
    assert_eq!(g, f, "all-live fabric must come back identical");
    assert!(rec.is_empty(), "diff must be empty");
}

#[test]
fn dead_phi_goes_its_operands_follow() {
    let mut f = Fabric::empty();
    let e = f.add_region("entry");
    let b = f.add_region("b");
    let bi1 = f.add_cell(e, Cell::new(e, CellKind::Const { ty: Type::I1, val: ConstVal::I1(true) }));
    let v1 = f.add_cell(e, Cell::new(e, CellKind::Const { ty: Type::I32, val: ConstVal::I32(1) }));
    let mut br = Cell::new(e, CellKind::Branch { then_r: b, else_r: b });
    br.operands = vec![bi1];
    f.add_cell(e, br);
    let mut phi = Cell::new(b, CellKind::Phi { joins: vec![e] });
    phi.operands = vec![v1];
    let phi = f.add_cell(b, phi);
    f.add_cell(b, Cell::new(b, CellKind::Ret));
    let (g, rec) = dce(&f).expect("dce");
    assert!(g.cell(phi).is_none(), "dead phi removed");
    assert!(g.cell(v1).is_none(), "phi's dead operand removed too");
    assert!(conserve::check(&f, &g, &rec).is_ok());
}

#[test]
fn terminators_are_never_dead() {
    let (f, _, _) = fabric_with_dead_code();
    let (g, _) = dce(&f).expect("dce");
    let ret = g.cell(CellId(4)).expect("ret is a root");
    assert!(matches!(ret.kind, CellKind::Ret));
    assert_eq!(g.regions[0].cells.last(), Some(&CellId(4)), "terminator stays last");
}

#[test]
fn dce_records_removals_in_region_order_with_rendered_cells() {
    let (f, _, _) = fabric_with_dead_code();
    let (g, rec) = dce(&f).expect("dce");
    assert_eq!(rec.pass, "dce");
    assert_eq!(g.regions[0].cells, vec![CellId(0), CellId(3), CellId(4)]);
    match (&rec.edits[0], &rec.edits[1]) {
        (Edit::RemoveCell { id: a, summary: sa, .. }, Edit::RemoveCell { id: b, summary: sb, .. }) => {
            assert_eq!((*a, *b), (CellId(1), CellId(2)));
            assert_eq!(sa, "%1 = const i32 1");
            assert_eq!(sb, "%2 = arith.add i32 %0, %1");
        }
        other => panic!("unexpected {:?}", other),
    }
}

#[test]
fn decay_certificates_verify_against_the_swept_fabric() {
    let (f, dead_const, dead_add) = fabric_with_dead_code();
    let (g, rec) = llvm_fabric::dce::dce_decay(&f, &llvm_fabric::manager::TickCtx { tick: 7 }).expect("decay");
    assert_eq!(rec.pass, "dce-decay");
    assert_eq!(rec.epoch, 7);
    assert!(g.cell(dead_const).is_none() && g.cell(dead_add).is_none());
    match &rec.edits[0] {
        Edit::RemoveCell { id, ledger, .. } => {
            assert_eq!(*id, dead_const);
            assert_eq!(ledger, "death{killer=dce-decay tick=7 users=1 witness=no-demand}");
        }
        other => panic!("unexpected {:?}", other),
    }
    assert!(llvm_fabric::decay::verify_deaths(&f, &rec).is_ok());
    assert!(conserve::check(&f, &g, &rec).is_ok());
}

#[test]
fn red_no_decay_is_identity_with_empty_diff() {
    let mut f = Fabric::empty();
    let e = f.add_region("entry");
    let p = f.add_cell(e, Cell::new(e, CellKind::Param { ty: Type::I32 }));
    let mut a = Cell::new(e, CellKind::Arith { op: ArithOp::Add, ty: Type::I32 });
    a.operands = vec![p, p];
    let a = f.add_cell(e, a);
    let mut r = Cell::new(e, CellKind::Ret);
    r.operands = vec![a];
    f.add_cell(e, r);
    let ctx = llvm_fabric::manager::TickCtx { tick: 3 };
    let (g, rec) = llvm_fabric::dce::dce_decay(&f, &ctx).expect("decay");
    assert_eq!(g, f, "nothing dies");
    assert!(rec.is_empty());
    assert!(llvm_fabric::decay::verify_deaths(&f, &rec).is_ok());
}
