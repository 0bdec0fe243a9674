use llvm_fabric::cell::{ArithOp, Cell, CellKind};
use llvm_fabric::fabric::{Fabric, Wire};
use llvm_fabric::id::CellId;
use llvm_fabric::ty::{ConstVal, Type};

fn build_entry_only() -> Fabric {
    let mut f = Fabric::empty();
    let entry = f.add_region("entry");
    let p = f.add_cell(entry, Cell::new(entry, CellKind::Param { ty: Type::I32 }));
    let c = f.add_cell(entry, Cell::new(entry, CellKind::Const { ty: Type::I32, val: ConstVal::I32(42) }));
    let mut a = Cell::new(entry, CellKind::Arith { op: ArithOp::Add, ty: Type::I32 });
    a.operands = vec![p, c];
    let a = f.add_cell(entry, a);
    let mut ret = Cell::new(entry, CellKind::Ret);
    ret.operands = vec![a];
    f.add_cell(entry, ret);
    f
}

#[test]
fn slab_ids_dense_and_stable() {
    let f = build_entry_only();
    assert_eq!(f.slab.len(), 4);
    assert_eq!(f.cell(CellId(3)).unwrap().is_terminator(), true);
}

#[test]
fn wires_follow_operand_order() {
    let f = build_entry_only();
    let w = f.wires();
    // 2 wires into the add, 1 wire into the ret.
    assert_eq!(w.len(), 3);
    assert!(w.contains(&Wire { from: CellId(0), to: CellId(2), slot: 0 }));
    assert!(w.contains(&Wire { from: CellId(1), to: CellId(2), slot: 1 }));
    assert!(w.contains(&Wire { from: CellId(2), to: CellId(3), slot: 0 }));
}

#[test]
fn uses_of_reverse_of_wires() {
    let f = build_entry_only();
    assert_eq!(f.uses_of(CellId(2)), vec![(CellId(3), 0)]);
}

#[test]
fn place_cell_allows_holes_for_parser() {
    let mut f = Fabric::empty();
    let entry = f.add_region("entry");
    f.place_cell(CellId(0), Cell::new(entry, CellKind::Const { ty: Type::I1, val: ConstVal::I1(true) }))
        .unwrap();
    // id 1 skipped: slab grows to len 2 with a hole; id 2 lands next.
    f.place_cell(CellId(2), Cell::new(entry, CellKind::Const { ty: Type::I1, val: ConstVal::I1(false) }))
        .unwrap();
    assert_eq!(f.slab.len(), 3);
    assert!(f.cell(CellId(1)).is_none());
    assert_eq!(f.region(entry).unwrap().cells, vec![CellId(0), CellId(2)]);
    // double assignment must fail, not panic
    assert!(f.place_cell(CellId(0), Cell::new(entry, CellKind::Ret)).is_err());
}

#[test]
fn place_cell_messages_name_the_id() {
    let mut f = Fabric::empty();
    let entry = f.add_region("entry");
    f.place_cell(CellId(5), Cell::new(entry, CellKind::Ret)).unwrap();
    assert_eq!(f.place_cell(CellId(5), Cell::new(entry, CellKind::Ret)), Err("cell %5 assigned twice".to_string()));
    let bad = llvm_fabric::id::RegionId(3);
    assert_eq!(
        f.place_cell(CellId(6), Cell::new(bad, CellKind::Ret)),
        Err("cell %6 placed in nonexistent region #3".to_string())
    );
}

#[test]
fn equality_ignores_tables_but_not_content() {
    let f = build_entry_only();
    let mut twin = f.clone();
    twin.tables = llvm_fabric::usetables::UseTables::derive(&twin);
    assert_eq!(f, twin);
    let mut other = f.clone();
    other.regions[0].name = "main".to_string();
    assert_ne!(f, other);
}

#[test]
fn removal_leaves_a_hole_and_ids_are_not_reused() {
    let mut f = build_entry_only();
    let removed = f.remove_cell(CellId(1));
    assert!(removed.is_some());
    assert!(f.cell(CellId(1)).is_none());
    assert_eq!(f.cells(), vec![CellId(0), CellId(2), CellId(3)]);
    let e = f.entry().unwrap();
    let n = f.add_cell(e, Cell::new(e, CellKind::Param { ty: Type::I64 }));
    assert_eq!(n, CellId(4));
}

#[test]
fn raw_accessors_reach_cells_and_regions() {
    let mut f = llvm_fabric::text::parse("fabric v0\nregion entry\n  %0 = const i32 1\n  %1 = ret %0\n").expect("parses");
    f.region_mut(llvm_fabric::id::RegionId(0)).expect("entry").name = "start".to_string();
    assert_eq!(f.regions[0].name, "start");
    assert!(f.region_mut(llvm_fabric::id::RegionId(3)).is_none());
    let c = f.cell_mut(llvm_fabric::id::CellId(1)).expect("ret");
    c.operands.clear();
    assert!(f.slab[1].as_ref().map(|c| c.operands.is_empty()).unwrap_or(false));
    assert!(f.cell_mut(llvm_fabric::id::CellId(7)).is_none());
}
