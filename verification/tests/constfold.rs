use llvm_fabric::cell::{ArithOp, Cell, CellKind, CmpOp};
use llvm_fabric::conserve;
use llvm_fabric::constfold::{const_fold, eval_arith, eval_cmp};
use llvm_fabric::diff::Edit;
use llvm_fabric::fabric::Fabric;
use llvm_fabric::id::{CellId, RegionId};
use llvm_fabric::ty::{ConstVal, Type};

fn entry_fabric() -> (Fabric, RegionId) {
    let mut f = Fabric::empty();
    let e = f.add_region("entry");
    (f, e)
}

fn consts(f: &mut Fabric, e: RegionId) -> (CellId, CellId) {
    let a = f.add_cell(e, Cell::new(e, CellKind::Const { ty: Type::I32, val: ConstVal::I32(2) }));
    let b = f.add_cell(e, Cell::new(e, CellKind::Const { ty: Type::I32, val: ConstVal::I32(3) }));
    (a, b)
}

#[test]
fn green_folds_add_and_cascades() {
    let (mut f, e) = entry_fabric();
    let (a, b) = consts(&mut f, e);
    let mut add1 = Cell::new(e, CellKind::Arith { op: ArithOp::Add, ty: Type::I32 });
    add1.operands = vec![a, b];
    let add1 = f.add_cell(e, add1);
    let mut add2 = Cell::new(e, CellKind::Arith { op: ArithOp::Add, ty: Type::I32 });
    add2.operands = vec![add1, b];
    let add2 = f.add_cell(e, add2);
    let mut r = Cell::new(e, CellKind::Ret);
    r.operands = vec![add2];
    let ret_id = f.add_cell(e, r);
    let (g, rec) = const_fold(&f).expect("fold");
    assert_ne!(g, f, "const_fold must change this fabric (red without the pass)");
    let fed = g.cell(ret_id).expect("ret still present").operands[0];
    match &g.cell(fed).expect("present").kind {
        CellKind::Const { ty: Type::I32, val: ConstVal::I32(8) } => {}
        other => panic!("ret must be fed by const 8, got {:?}", other),
    }
    assert!(g.cell(add1).is_none() && g.cell(add2).is_none(), "folded cells removed");
    assert!(conserve::check(&f, &g, &rec).is_ok(), "conservation must hold");
    let ledgered = rec.edits.iter().any(|e| matches!(e, Edit::RemoveCell { ledger, .. } if ledger.contains("folded into")));
    assert!(ledgered, "removals must carry ledger entries");
    let removals = rec.edits.iter().filter(|e| matches!(e, Edit::RemoveCell { .. })).count();
    assert_eq!(removals, 2);
}

#[test]
fn green_folds_cmp() {
    let (mut f, e) = entry_fabric();
    let (a, b) = consts(&mut f, e);
    let mut c = Cell::new(e, CellKind::Cmp { op: CmpOp::Lt });
    c.operands = vec![a, b];
    let c = f.add_cell(e, c);
    let mut r = Cell::new(e, CellKind::Ret);
    r.operands = vec![c];
    f.add_cell(e, r);
    let (g, _rec) = const_fold(&f).expect("fold");
    let fed = g.cell(CellId(3)).unwrap().operands[0];
    assert!(matches!(g.cell(fed).unwrap().kind, CellKind::Const { ty: Type::I1, val: ConstVal::I1(true) }));
    assert!(g.cell(c).is_none());
}

#[test]
fn red_param_chain_is_untouched() {
    let (mut f, e) = entry_fabric();
    let p = f.add_cell(e, Cell::new(e, CellKind::Param { ty: Type::I32 }));
    let c = f.add_cell(e, Cell::new(e, CellKind::Const { ty: Type::I32, val: ConstVal::I32(1) }));
    let mut a = Cell::new(e, CellKind::Arith { op: ArithOp::Add, ty: Type::I32 });
    a.operands = vec![p, c];
    let a = f.add_cell(e, a);
    let mut r = Cell::new(e, CellKind::Ret);
    r.operands = vec![a];
    f.add_cell(e, r);
    let (g, rec) = const_fold(&f).expect("fold");
    assert_eq!(g, f, "no foldable cells => identical output");
    assert!(rec.is_empty(), "diff must be empty");
}

#[test]
fn div_by_zero_const_is_left_alone() {
    let (mut f, e) = entry_fabric();
    let a = f.add_cell(e, Cell::new(e, CellKind::Const { ty: Type::I32, val: ConstVal::I32(5) }));
    let z = f.add_cell(e, Cell::new(e, CellKind::Const { ty: Type::I32, val: ConstVal::I32(0) }));
    let mut d = Cell::new(e, CellKind::Arith { op: ArithOp::Div, ty: Type::I32 });
    d.operands = vec![a, z];
    let d = f.add_cell(e, d);
    let mut r = Cell::new(e, CellKind::Ret);
    r.operands = vec![d];
    f.add_cell(e, r);
    let (g, rec) = const_fold(&f).expect("fold");
    assert_eq!(g, f, "5/0 must not fold");
    assert!(rec.is_empty());
}

#[test]
fn overflow_skips_fold() {
    let (mut f, e) = entry_fabric();
    let a = f.add_cell(e, Cell::new(e, CellKind::Const { ty: Type::I32, val: ConstVal::I32(i32::MAX) }));
    let b = f.add_cell(e, Cell::new(e, CellKind::Const { ty: Type::I32, val: ConstVal::I32(1) }));
    let mut d = Cell::new(e, CellKind::Arith { op: ArithOp::Add, ty: Type::I32 });
    d.operands = vec![a, b];
    let d = f.add_cell(e, d);
    let mut r = Cell::new(e, CellKind::Ret);
    r.operands = vec![d];
    f.add_cell(e, r);
    let (g, _rec) = const_fold(&f).expect("fold");
    assert!(g.cell(d).is_some(), "i32::MAX + 1 must not fold (checked)");
}

#[test]
fn eval_arith_matches_rust_checked_arithmetic() {
    let xs32 = [i32::MIN, i32::MIN + 1, -7, -2, -1, 0, 1, 2, 3, 7, i32::MAX - 1, i32::MAX];
    for &x in &xs32 {
        for &y in &xs32 {
            let cases = [
                (ArithOp::Add, x.checked_add(y)),
                (ArithOp::Sub, x.checked_sub(y)),
                (ArithOp::Mul, x.checked_mul(y)),
                (ArithOp::Div, x.checked_div(y)),
            ];
            for (op, want) in cases {
                assert_eq!(eval_arith(op, ConstVal::I32(x), ConstVal::I32(y)), want.map(ConstVal::I32), "{:?} {} {}", op, x, y);
            }
        }
    }
    let xs64 = [i64::MIN, -9, -1, 0, 1, 5, i64::MAX];
    for &x in &xs64 {
        for &y in &xs64 {
            let cases = [
                (ArithOp::Add, x.checked_add(y)),
                (ArithOp::Sub, x.checked_sub(y)),
                (ArithOp::Mul, x.checked_mul(y)),
                (ArithOp::Div, x.checked_div(y)),
            ];
            for (op, want) in cases {
                assert_eq!(eval_arith(op, ConstVal::I64(x), ConstVal::I64(y)), want.map(ConstVal::I64));
            }
        }
    }
    assert_eq!(eval_arith(ArithOp::Add, ConstVal::I32(1), ConstVal::I64(1)), None, "mixed types do not fold");
    assert_eq!(eval_arith(ArithOp::Add, ConstVal::I1(true), ConstVal::I1(true)), None, "i1 arith does not fold");
}

#[test]
fn eval_cmp_matches_rust_comparison() {
    let xs = [i64::MIN, -3, 0, 3, i64::MAX];
    for &x in &xs {
        for &y in &xs {
            let cases = [
                (CmpOp::Eq, x == y),
                (CmpOp::Ne, x != y),
                (CmpOp::Lt, x < y),
                (CmpOp::Le, x <= y),
                (CmpOp::Gt, x > y),
                (CmpOp::Ge, x >= y),
            ];
            for (op, want) in cases {
                assert_eq!(eval_cmp(op, ConstVal::I64(x), ConstVal::I64(y)), Some(ConstVal::I1(want)));
                if x >= i32::MIN as i64 && x <= i32::MAX as i64 && y >= i32::MIN as i64 && y <= i32::MAX as i64 {
                    assert_eq!(eval_cmp(op, ConstVal::I32(x as i32), ConstVal::I32(y as i32)), Some(ConstVal::I1(want)));
                }
            }
        }
    }
    assert_eq!(eval_cmp(CmpOp::Eq, ConstVal::I1(true), ConstVal::I1(true)), Some(ConstVal::I1(true)));
    assert_eq!(eval_cmp(CmpOp::Lt, ConstVal::I1(false), ConstVal::I1(true)), None, "i1 has no order");
    assert_eq!(eval_cmp(CmpOp::Eq, ConstVal::I32(1), ConstVal::I64(1)), None, "mixed types");
}

#[test]
fn pipeline_folds_then_sweeps_the_dead_consts() {
    let (mut f, e) = entry_fabric();
    let (a, b) = consts(&mut f, e);
    let mut add1 = Cell::new(e, CellKind::Arith { op: ArithOp::Add, ty: Type::I32 });
    add1.operands = vec![a, b];
    let add1 = f.add_cell(e, add1);
    let mut r = Cell::new(e, CellKind::Ret);
    r.operands = vec![add1];
    let ret_id = f.add_cell(e, r);
    let (g, h, stages) = llvm_fabric::pipeline::run(&f).expect("pipeline");
    assert_eq!(stages.len(), 5);
    let names: Vec<&str> = h.records.iter().map(|r| r.pass).collect();
    assert_eq!(names, vec!["constfold", "dce", "constfold", "dce"]);
    let epochs: Vec<u64> = h.records.iter().map(|r| r.epoch).collect();
    assert_eq!(epochs, vec![0, 1, 2, 3]);
    // the fold leaves 2 and 3 dead; dce removes them
    assert!(g.cell(a).is_none() && g.cell(b).is_none() && g.cell(add1).is_none());
    let fed = g.cell(ret_id).unwrap().operands[0];
    assert!(matches!(g.cell(fed).unwrap().kind, CellKind::Const { val: ConstVal::I32(5), .. }));
    assert_eq!(g.regions[0].cells.len(), 2);
    assert!(h.records[2].edits.is_empty() && h.records[3].edits.is_empty(), "second round finds nothing");
}

#[test]
fn fold_chain_places_constants_where_the_folded_cells_stood() {
    let (mut f, e) = entry_fabric();
    let (a, b) = consts(&mut f, e);
    let mut add1 = Cell::new(e, CellKind::Arith { op: ArithOp::Add, ty: Type::I32 });
    add1.operands = vec![a, b];
    let add1 = f.add_cell(e, add1);
    let mut add2 = Cell::new(e, CellKind::Arith { op: ArithOp::Add, ty: Type::I32 });
    add2.operands = vec![add1, b];
    let add2 = f.add_cell(e, add2);
    let mut r = Cell::new(e, CellKind::Ret);
    r.operands = vec![add2];
    let ret_id = f.add_cell(e, r);
    let (g, rec) = const_fold(&f).expect("fold");
    assert_eq!(g.regions[0].cells, vec![CellId(0), CellId(1), CellId(5), CellId(6), CellId(4)]);
    assert!(matches!(g.cell(CellId(5)).unwrap().kind, CellKind::Const { ty: Type::I32, val: ConstVal::I32(5) }));
    assert!(matches!(g.cell(CellId(6)).unwrap().kind, CellKind::Const { ty: Type::I32, val: ConstVal::I32(8) }));
    assert_eq!(g.cell(ret_id).unwrap().operands, vec![CellId(6)]);
    assert_eq!(rec.edits.len(), 6);
    let removed: Vec<(CellId, String)> = rec
        .edits
        .iter()
        .filter_map(|e| match e {
            Edit::RemoveCell { id, ledger, .. } => Some((*id, ledger.clone())),
            _ => None,
        })
        .collect();
    assert_eq!(removed, vec![(add1, "folded into %5".to_string()), (add2, "folded into %6".to_string())]);
    assert!(conserve::check(&f, &g, &rec).is_ok());
}

#[test]
fn ready_copy_takes_ready_fabrics_and_refuses_the_rest() {
    let (mut f, e) = entry_fabric();
    let (a, b) = consts(&mut f, e);
    let mut add = Cell::new(e, CellKind::Arith { op: ArithOp::Add, ty: Type::I32 });
    add.operands = vec![a, b];
    let add = f.add_cell(e, add);
    let mut r = Cell::new(e, CellKind::Ret);
    r.operands = vec![add];
    f.add_cell(e, r);
    let c = llvm_fabric::pipeline::ready_copy(&f).expect("ready");
    assert!(c.same_content_as(&f));

    let mut float = f.clone();
    float.add_cell(e, Cell::new(e, CellKind::Const { ty: Type::F64, val: ConstVal::F64(0) }));
    assert!(llvm_fabric::pipeline::ready_copy(&float).is_none(), "float constant");

    let mut unary = f.clone();
    let mut one = Cell::new(e, CellKind::Arith { op: ArithOp::Add, ty: Type::I32 });
    one.operands = vec![a];
    unary.add_cell(e, one);
    assert!(llvm_fabric::pipeline::ready_copy(&unary).is_none(), "arith with one operand");

    let mut dangling = f.clone();
    dangling.regions[0].cells.push(CellId(99));
    assert!(llvm_fabric::pipeline::ready_copy(&dangling).is_none(), "listed id with no cell");

    let mut twice = f.clone();
    twice.regions[0].cells.push(a);
    assert!(llvm_fabric::pipeline::ready_copy(&twice).is_none(), "a cell listed twice");

    let mut outside = f.clone();
    let mut far = Cell::new(e, CellKind::Arith { op: ArithOp::Add, ty: Type::I32 });
    far.operands = vec![a, CellId(50)];
    outside.add_cell(e, far);
    assert!(llvm_fabric::pipeline::ready_copy(&outside).is_none(), "operand outside the slab");
}

#[test]
fn generated_fabrics_go_through_the_pipeline_conserving_cells() {
    let mut ran = 0;
    for seed in 1..120u64 {
        let f = llvm_fabric::fuzz::gen_fabric(&mut llvm_fabric::fuzz::Rng::new(seed));
        let g = match llvm_fabric::pipeline::ready_copy(&f) {
            Some(g) => g,
            None => continue,
        };
        let (last, h, stages) = llvm_fabric::pipeline::run(&g).expect("pipeline");
        assert_eq!(stages.len(), 5);
        assert!(conserve::check_pipeline(&g, &last, &h).is_ok(), "seed {}", seed);
        for w in stages.windows(2).zip(h.records.iter()) {
            assert!(conserve::check(&w.0[0], &w.0[1], w.1).is_ok());
        }
        ran += 1;
    }
    assert!(ran > 0);
}
