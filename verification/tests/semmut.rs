use llvm_fabric::cell::{ArithOp, Cell, CellKind, CmpOp};
use llvm_fabric::fabric::Fabric;
use llvm_fabric::fuzz::Rng;
use llvm_fabric::id::{CellId, RegionId};
use llvm_fabric::semmut::{apply_input_mutation, SemKind};
use llvm_fabric::ty::{ConstVal, Type};

/// entry: %0 param, %1 = 5, %2 = 7, %3 = sub %1 %2, %4 = lt %1 %2,
/// %5 = br %4 r1 r2; r1: %6 = jmp r2; r2: %7 = phi [entry: %1] [r1: %2],
/// %8 = 9, %9 = ret %7.
fn diamond() -> Fabric {
    let mut f = Fabric::empty();
    let e = f.add_region("entry");
    let r1 = f.add_region("r1");
    let r2 = f.add_region("r2");
    let p = f.add_cell(e, Cell::new(e, CellKind::Param { ty: Type::I32 }));
    let a = f.add_cell(e, Cell::new(e, CellKind::Const { ty: Type::I32, val: ConstVal::I32(5) }));
    let b = f.add_cell(e, Cell::new(e, CellKind::Const { ty: Type::I32, val: ConstVal::I32(7) }));
    let mut s = Cell::new(e, CellKind::Arith { op: ArithOp::Sub, ty: Type::I32 });
    s.operands = vec![a, b];
    f.add_cell(e, s);
    let mut c = Cell::new(e, CellKind::Cmp { op: CmpOp::Lt });
    c.operands = vec![a, b];
    let c = f.add_cell(e, c);
    let mut br = Cell::new(e, CellKind::Branch { then_r: r1, else_r: r2 });
    br.operands = vec![c];
    f.add_cell(e, br);
    f.add_cell(r1, Cell::new(r1, CellKind::Jump { target: r2 }));
    let mut phi = Cell::new(r2, CellKind::Phi { joins: vec![e, r1] });
    phi.operands = vec![a, b];
    let phi = f.add_cell(r2, phi);
    f.add_cell(r2, Cell::new(r2, CellKind::Const { ty: Type::I32, val: ConstVal::I32(9) }));
    let mut r = Cell::new(r2, CellKind::Ret);
    r.operands = vec![phi];
    f.add_cell(r2, r);
    let _ = p;
    f
}

fn changed(f: &Fabric, g: &Fabric) -> Vec<usize> {
    (0..f.slab.len()).filter(|&i| f.slab[i] != g.slab[i]).collect()
}

#[test]
fn operand_swaps_reverse_the_two_operands() {
    let f = diamond();
    let g = apply_input_mutation(&f, SemKind::ArithSubDivSwap, &mut Rng::new(1)).expect("a sub to swap");
    assert_eq!(changed(&f, &g), vec![3]);
    assert_eq!(g.cell(CellId(3)).unwrap().operands, vec![CellId(2), CellId(1)]);
    let g = apply_input_mutation(&f, SemKind::CmpOrderedSwap, &mut Rng::new(1)).expect("an lt to swap");
    assert_eq!(changed(&f, &g), vec![4]);
    assert_eq!(g.cell(CellId(4)).unwrap().operands, vec![CellId(2), CellId(1)]);
}

#[test]
fn branch_target_swap_exchanges_the_arms() {
    let f = diamond();
    let g = apply_input_mutation(&f, SemKind::BranchTargetSwap, &mut Rng::new(2)).expect("a branch");
    assert_eq!(changed(&f, &g), vec![5]);
    assert_eq!(g.cell(CellId(5)).unwrap().kind, CellKind::Branch { then_r: RegionId(2), else_r: RegionId(1) });
    assert_eq!(g.successors(RegionId(0)).len(), 2);
}

#[test]
fn join_drop_turns_the_branch_into_a_jump_and_strips_the_phi() {
    let f = diamond();
    let g = apply_input_mutation(&f, SemKind::JoinDropWithEdge, &mut Rng::new(3)).expect("a branch");
    assert_eq!(g.cell(CellId(5)).unwrap().kind, CellKind::Jump { target: RegionId(1) });
    assert!(g.cell(CellId(5)).unwrap().operands.is_empty());
    assert_eq!(g.cell(CellId(7)).unwrap().kind, CellKind::Phi { joins: vec![RegionId(1)] });
    assert_eq!(g.cell(CellId(7)).unwrap().operands, vec![CellId(2)]);
    assert_eq!(changed(&f, &g), vec![5, 7]);
    assert_eq!(g.predecessors(RegionId(2)), &[RegionId(1)]);
}

#[test]
fn const_off_by_one_moves_one_constant_by_one() {
    let f = diamond();
    for seed in 1..40u64 {
        let g = apply_input_mutation(&f, SemKind::ConstOffByOne, &mut Rng::new(seed)).expect("i32 constants");
        let ch = changed(&f, &g);
        assert_eq!(ch.len(), 1);
        let (before, after) = match (&f.slab[ch[0]].as_ref().unwrap().kind, &g.slab[ch[0]].as_ref().unwrap().kind) {
            (CellKind::Const { val: ConstVal::I32(x), .. }, CellKind::Const { val: ConstVal::I32(y), .. }) => (*x, *y),
            other => panic!("unexpected {:?}", other),
        };
        assert_eq!((after - before).abs(), 1);
    }
}

#[test]
fn ret_value_swap_returns_another_value_of_the_region() {
    let f = diamond();
    let g = apply_input_mutation(&f, SemKind::RetValueSwap, &mut Rng::new(4)).expect("a ret");
    assert_eq!(changed(&f, &g), vec![9]);
    assert_eq!(g.cell(CellId(9)).unwrap().operands, vec![CellId(8)]);
}

#[test]
fn phi_operand_rebind_picks_a_same_typed_value_from_the_join_region_or_entry() {
    let f = diamond();
    for seed in 1..40u64 {
        let g = apply_input_mutation(&f, SemKind::PhiOperandRebind, &mut Rng::new(seed)).expect("a phi");
        assert_eq!(changed(&f, &g), vec![7]);
        let ops = &g.cell(CellId(7)).unwrap().operands;
        let slot0 = [CellId(0), CellId(2), CellId(3)];
        let slot1 = [CellId(0), CellId(1), CellId(3)];
        assert!(
            (slot0.contains(&ops[0]) && ops[1] == CellId(2)) || (ops[0] == CellId(1) && slot1.contains(&ops[1])),
            "{:?}",
            ops
        );
    }
}

#[test]
fn no_site_and_the_output_tamper_give_none() {
    let f = diamond();
    assert!(apply_input_mutation(&f, SemKind::StageTamperControl, &mut Rng::new(5)).is_none());
    let mut plain = Fabric::empty();
    let e = plain.add_region("entry");
    plain.add_cell(e, Cell::new(e, CellKind::Ret));
    for kind in [SemKind::ConstOffByOne, SemKind::ArithSubDivSwap, SemKind::BranchTargetSwap, SemKind::PhiOperandRebind] {
        assert!(apply_input_mutation(&plain, kind, &mut Rng::new(6)).is_none());
    }
}
