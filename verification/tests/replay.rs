use llvm_fabric::cell::{Cell, CellKind};
use llvm_fabric::diff::{DiffRecord, Edit, History};
use llvm_fabric::fabric::Fabric;
use llvm_fabric::id::{CellId, RegionId};
use llvm_fabric::replay::{apply_edit, replay};
use llvm_fabric::ty::{ConstVal, Type};

/// entry: %0 = const i32 2 ; %1 = ret %0
fn base() -> Fabric {
    let mut f = Fabric::empty();
    let e = f.add_region("entry");
    f.add_cell(e, Cell::new(e, CellKind::Const { ty: Type::I32, val: ConstVal::I32(2) }));
    let mut r = Cell::new(e, CellKind::Ret);
    r.operands = vec![CellId(0)];
    f.add_cell(e, r);
    f
}

/// Add a const before the region's terminator, returning the edit that
/// records it.
fn add_const_edit(f: &mut Fabric, region: RegionId, v: i32) -> Edit {
    let id = CellId(f.slab.len() as u32);
    let cell = Cell::new(region, CellKind::Const { ty: Type::I32, val: ConstVal::I32(v) });
    let index = f.regions[region.0 as usize].cells.len() - 1;
    let placed = f.insert_cell(region, index, cell.clone());
    assert_eq!(placed, id);
    Edit::AddCell { id, index, cell }
}

#[test]
fn replay_reproduces_single_add() {
    let f0 = base();
    let mut f = f0.clone();
    let e = f.entry().unwrap();
    let edit = add_const_edit(&mut f, e, 7);
    let mut rec = DiffRecord::new("test");
    rec.edits.push(edit);
    let mut h = History::new();
    h.push(rec);
    let (stages, final_f) = replay(&f0, &h).unwrap();
    assert_eq!(stages.len(), 2);
    assert!(final_f == f, "replay must reproduce the edited fabric structurally");
}

#[test]
fn forged_id_is_rejected() {
    let f0 = base();
    let mut f = f0.clone();
    let e = f.entry().unwrap();
    let edit = add_const_edit(&mut f, e, 7);
    let mut forged = edit.clone();
    if let Edit::AddCell { id, .. } = &mut forged {
        id.0 = 99;
    }
    let mut rec = DiffRecord::new("forged");
    rec.edits.push(forged);
    let mut h = History::new();
    h.push(rec);
    let err = replay(&f0, &h).unwrap_err();
    assert!(err.contains("forged"), "{}", err);
}

#[test]
fn tampered_retarget_is_rejected() {
    let f0 = base();
    let mut f = f0.clone();
    let e = f.entry().unwrap();
    let add = add_const_edit(&mut f, e, 7);
    let new_id = match &add {
        Edit::AddCell { id, .. } => *id,
        _ => unreachable!(),
    };
    let rt = Edit::Retarget { cell: CellId(1), slot: 0, from: CellId(0), to: new_id };
    f.retarget(CellId(1), 0, new_id);
    let mut rec = DiffRecord::new("t");
    rec.edits.push(add);
    rec.edits.push(rt.clone());
    let mut h = History::new();
    h.push(rec);
    let (_, final_f) = replay(&f0, &h).unwrap();
    assert!(final_f == f);
    let mut bad = History::new();
    let mut rec2 = DiffRecord::new("t");
    rec2.edits.push(Edit::Retarget { cell: CellId(1), slot: 0, from: CellId(9), to: new_id });
    bad.push(rec2);
    let err = replay(&f0, &bad).unwrap_err();
    assert!(err.contains("does not match"), "{}", err);
}

#[test]
fn apply_edit_messages_name_the_fault() {
    let mut f = base();
    let e = apply_edit(&mut f, &Edit::RemoveCell { id: CellId(5), ledger: "x".into(), summary: String::new() })
        .unwrap_err();
    assert_eq!(e, "RemoveCell %5: no such cell present");
    let e = apply_edit(&mut f, &Edit::Retarget { cell: CellId(1), slot: 3, from: CellId(0), to: CellId(0) })
        .unwrap_err();
    assert_eq!(e, "Retarget: %1 has no slot 3");
    let e = apply_edit(&mut f, &Edit::Retarget { cell: CellId(7), slot: 0, from: CellId(0), to: CellId(0) })
        .unwrap_err();
    assert_eq!(e, "Retarget: %7 not present");
    let cell = Cell::new(RegionId(4), CellKind::Ret);
    let e = apply_edit(&mut f, &Edit::AddCell { id: CellId(2), index: 0, cell }).unwrap_err();
    assert_eq!(e, "AddCell %2: region #4 does not exist");
    let cell = Cell::new(RegionId(0), CellKind::Ret);
    let e = apply_edit(&mut f, &Edit::AddCell { id: CellId(3), index: 0, cell }).unwrap_err();
    assert_eq!(e, "AddCell %3 is not the next free id (2) \u{2014} history is forged or out of order");
    assert!(f == base(), "a failed edit leaves the fabric unchanged");
}

#[test]
fn replay_stages_follow_each_record() {
    let f0 = base();
    let mut f = f0.clone();
    let e = f.entry().unwrap();
    let a = add_const_edit(&mut f, e, 7);
    let mut r1 = DiffRecord::new("add");
    r1.edits.push(a);
    let mut r2 = DiffRecord::new("rm");
    r2.edits.push(Edit::RemoveCell { id: CellId(0), ledger: "gone".into(), summary: String::new() });
    let mut h = History::new();
    h.push(r1);
    h.push(r2);
    let (stages, fin) = replay(&f0, &h).unwrap();
    assert_eq!(stages.len(), 3);
    assert!(stages[0] == f0);
    assert!(stages[1] == f);
    assert!(stages[2].cell(CellId(0)).is_none());
    assert!(fin == stages[2]);
    assert_eq!(fin.regions[0].cells, vec![CellId(2), CellId(1)]);
}
