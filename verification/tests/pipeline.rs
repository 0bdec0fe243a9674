use llvm_fabric::cell::{ArithOp, Cell, CellKind};
use llvm_fabric::conserve;
use llvm_fabric::fabric::Fabric;
use llvm_fabric::pipeline::{ready_copy, run};
use llvm_fabric::replay;
use llvm_fabric::ty::{ConstVal, Type};

fn mix() -> Fabric {
    let mut f = Fabric::empty();
    let e = f.add_region("entry");
    let p = f.add_cell(e, Cell::new(e, CellKind::Param { ty: Type::I32 }));
    let c1 = f.add_cell(e, Cell::new(e, CellKind::Const { ty: Type::I32, val: ConstVal::I32(20) }));
    let c2 = f.add_cell(e, Cell::new(e, CellKind::Const { ty: Type::I32, val: ConstVal::I32(22) }));
    let mut a = Cell::new(e, CellKind::Arith { op: ArithOp::Add, ty: Type::I32 });
    a.operands = vec![c1, c2];
    let a = f.add_cell(e, a);
    let dead = f.add_cell(e, Cell::new(e, CellKind::Const { ty: Type::I64, val: ConstVal::I64(7) }));
    let mut a2 = Cell::new(e, CellKind::Arith { op: ArithOp::Add, ty: Type::I32 });
    a2.operands = vec![p, a];
    let a2 = f.add_cell(e, a2);
    let mut r = Cell::new(e, CellKind::Ret);
    r.operands = vec![a2];
    f.add_cell(e, r);
    let _ = dead;
    f
}

#[test]
fn pipeline_conserves_and_verifies() {
    let f = mix();
    let (final_f, history, stages) = run(&f).unwrap();
    assert_eq!(stages.len(), 5, "4 passes = 5 stages");
    assert!(ready_copy(&final_f).is_some());
    assert!(conserve::check_pipeline(&f, &final_f, &history).is_ok());
    let ret_id = final_f
        .cells()
        .into_iter()
        .find(|&id| matches!(final_f.cell(id).map(|c| &c.kind), Some(CellKind::Ret)))
        .unwrap();
    let fed = final_f.cell(ret_id).unwrap().operands[0];
    let fed2 = final_f.cell(fed).unwrap().operands[1];
    assert_eq!(final_f.cell(fed2).unwrap().kind, CellKind::Const { ty: Type::I32, val: ConstVal::I32(42) });
}

#[test]
fn replay_reproduces_every_stage_bit_identically() {
    let f = mix();
    let (final_f, history, stages) = run(&f).unwrap();
    let (replayed, final_r) = replay::replay(&f, &history).unwrap();
    assert_eq!(replayed.len(), stages.len());
    for (i, (actual, replayed_stage)) in stages.iter().zip(replayed.iter()).enumerate() {
        assert_eq!(actual, replayed_stage, "stage {} must match structurally", i);
        assert_eq!(
            llvm_fabric::text::print(actual),
            llvm_fabric::text::print(replayed_stage),
            "stage {} must match as canonical text",
            i
        );
    }
    assert_eq!(final_f, final_r);
    assert_eq!(llvm_fabric::text::print(&final_f), llvm_fabric::text::print(&final_r));
}
