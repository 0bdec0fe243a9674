use llvm_fabric::cell::{Cell, CellKind};
use llvm_fabric::conserve::{check, check_pipeline, population_audit};
use llvm_fabric::diff::{DiffRecord, Edit, History};
use llvm_fabric::fabric::Fabric;
use llvm_fabric::id::CellId;
use llvm_fabric::text::render_cell;
use llvm_fabric::ty::{ConstVal, Type};

fn one_const() -> Fabric {
    let mut f = Fabric::empty();
    let e = f.add_region("entry");
    f.add_cell(e, Cell::new(e, CellKind::Const { ty: Type::I32, val: ConstVal::I32(1) }));
    f.add_cell(e, Cell::new(e, CellKind::Ret));
    f
}

#[test]
fn identical_fabrics_conserve() {
    let f = one_const();
    let rec = DiffRecord::new("noop");
    assert!(check(&f, &f, &rec).is_ok());
}

#[test]
fn vanish_without_ledger_is_caught() {
    let before = one_const();
    let mut after = before.clone();
    after.slab[0] = None;
    after.regions[0].cells.retain(|&c| c != CellId(0));
    let rec = DiffRecord::new("badpass");
    let err = check(&before, &after, &rec).unwrap_err();
    assert!(err.contains("vanish"), "{}", err);
}

#[test]
fn ledgered_removal_conerves() {
    let before = one_const();
    let mut after = before.clone();
    after.slab[0] = None;
    after.regions[0].cells.retain(|&c| c != CellId(0));
    let mut rec = DiffRecord::new("goodpass");
    rec.edits.push(Edit::RemoveCell {
        id: CellId(0),
        ledger: "dead: no path to a terminator".into(),
        summary: "%0 = const i32 1".into(),
    });
    assert!(check(&before, &after, &rec).is_ok());
}

#[test]
fn empty_ledger_is_caught() {
    let before = one_const();
    let mut after = before.clone();
    after.slab[0] = None;
    after.regions[0].cells.retain(|&c| c != CellId(0));
    let mut rec = DiffRecord::new("sneaky");
    rec.edits.push(Edit::RemoveCell { id: CellId(0), ledger: "   ".into(), summary: String::new() });
    let err = check(&before, &after, &rec).unwrap_err();
    assert!(err.contains("blank ledger"), "blank ledger must not count: {}", err);
}

#[test]
fn check_messages_are_exact() {
    let before = one_const();
    let mut after = before.clone();
    after.slab[0] = None;
    after.regions[0].cells.retain(|&c| c != CellId(0));
    let rec = DiffRecord::new("badpass");
    assert_eq!(check(&before, &after, &rec).unwrap_err(), "conservation violated: %0 vanished without a ledger entry");
    let mut grown = before.clone();
    let e = grown.entry().unwrap();
    grown.add_cell(e, Cell::new(e, CellKind::Param { ty: Type::I32 }));
    assert_eq!(check(&before, &grown, &rec).unwrap_err(), "conservation violated: %2 appeared without an AddCell edit");
    let mut rec = DiffRecord::new("sneaky");
    rec.edits.push(Edit::RemoveCell { id: CellId(0), ledger: "\t\n".into(), summary: String::new() });
    assert_eq!(check(&before, &after, &rec).unwrap_err(), "conservation violated: %0 removed with a blank ledger entry");
}

#[test]
fn pipeline_conservation_looks_across_all_ticks() {
    let before = one_const();
    let mut after = before.clone();
    after.slab[0] = None;
    after.regions[0].cells.retain(|&c| c != CellId(0));
    let mut h = History::new();
    h.push(DiffRecord::new("first"));
    assert_eq!(check_pipeline(&before, &after, &h).unwrap_err(), "conservation violated: %0 vanished across pipeline");
    let mut rec = DiffRecord::new("second");
    rec.edits.push(Edit::RemoveCell { id: CellId(0), ledger: "dead".into(), summary: String::new() });
    h.push(rec);
    assert!(check_pipeline(&before, &after, &h).is_ok());
    assert_eq!(check_pipeline(&after, &before, &h).unwrap_err(), "conservation violated: %0 appeared across pipeline");
}

/// entry: %0 = param ; %1 = const 7 (dead) ; %2 = ret %0
fn mix() -> Fabric {
    let mut f = Fabric::empty();
    let e = f.add_region("entry");
    f.add_cell(e, Cell::new(e, CellKind::Param { ty: Type::I32 }));
    f.add_cell(e, Cell::new(e, CellKind::Const { ty: Type::I32, val: ConstVal::I32(7) }));
    let mut r = Cell::new(e, CellKind::Ret);
    r.operands = vec![CellId(0)];
    f.add_cell(e, r);
    f
}

fn really_remove_dead(f: &Fabric, edits: &mut Vec<Edit>) -> Fabric {
    let mut g = f.clone();
    let region = g.cell(CellId(1)).unwrap().region;
    g.regions[region.0 as usize].cells.retain(|&c| c != CellId(1));
    g.slab[1] = None;
    edits.push(Edit::RemoveCell {
        id: CellId(1),
        ledger: "dead: no path to a terminator".into(),
        summary: render_cell(f, CellId(1)),
    });
    g
}

#[test]
fn audit_rejects_ledger_multiplication() {
    let f = mix();
    let mut edits = vec![];
    let g = really_remove_dead(&f, &mut edits);
    let mut rec = DiffRecord::new("a3");
    rec.edits = edits.clone();
    rec.edits.push(edits[0].clone());
    let err = population_audit(&f, &g, &rec).unwrap_err();
    assert!(err.contains("multiplication"), "{}", err);
}

#[test]
fn audit_rejects_forged_survivor_ledger() {
    let f = mix();
    let mut rec = DiffRecord::new("a4");
    rec.edits.push(Edit::RemoveCell {
        id: CellId(1),
        ledger: "dead: no path to a terminator".into(),
        summary: render_cell(&f, CellId(1)),
    });
    let err = population_audit(&f, &f, &rec).unwrap_err();
    assert!(err.contains("forged ledger"), "{}", err);
    assert!(check(&f, &f, &rec).is_ok());
}

#[test]
fn audit_rejects_a_lying_summary() {
    let f = mix();
    let mut g = f.clone();
    let region = g.cell(CellId(1)).unwrap().region;
    g.regions[region.0 as usize].cells.retain(|&c| c != CellId(1));
    g.slab[1] = None;
    let mut rec = DiffRecord::new("a5");
    rec.edits.push(Edit::RemoveCell {
        id: CellId(1),
        ledger: "dead: no path to a terminator".into(),
        summary: "%1 = const i32 999".into(),
    });
    let err = population_audit(&f, &g, &rec).unwrap_err();
    assert!(err.contains("lying summary"), "{}", err);
    assert_eq!(
        err,
        "lying summary: %1 recorded as \"%1 = const i32 999\" but the cell was \"%1 = const i32 7\""
    );
}

#[test]
fn audit_rejects_noop_retarget_inflation() {
    let f = mix();
    let mut rec = DiffRecord::new("a6");
    rec.edits.push(Edit::Retarget { cell: CellId(2), slot: 0, from: CellId(0), to: CellId(0) });
    let err = population_audit(&f, &f, &rec).unwrap_err();
    assert!(err.contains("no-op retarget"), "{}", err);
    assert_eq!(err, "no-op retarget %2.0: %0 -> %0 inflates the ledger");
}

#[test]
fn audit_rejects_id_resurrection() {
    let f = mix();
    let mut edits = vec![];
    let g = really_remove_dead(&f, &mut edits);
    let mut g2 = g.clone();
    let e = g2.cell(CellId(0)).unwrap().region;
    let cell = Cell::new(e, CellKind::Const { ty: Type::I32, val: ConstVal::I32(7) });
    g2.slab[1] = Some(cell.clone());
    g2.regions[e.0 as usize].cells.insert(1, CellId(1));
    let mut rec = DiffRecord::new("a7");
    rec.edits.push(Edit::AddCell { id: CellId(1), index: 1, cell });
    let err = population_audit(&g, &g2, &rec).unwrap_err();
    assert!(err.contains("resurrection"), "{}", err);
}

#[test]
fn audit_allows_a_fresh_add() {
    let f = mix();
    let mut g = f.clone();
    let e = g.cell(CellId(0)).unwrap().region;
    let cell = Cell::new(e, CellKind::Const { ty: Type::I32, val: ConstVal::I32(9) });
    g.slab.push(Some(cell.clone()));
    g.regions[e.0 as usize].cells.insert(1, CellId(3));
    let mut rec = DiffRecord::new("a9");
    rec.edits.push(Edit::AddCell { id: CellId(3), index: 1, cell });
    let rep = population_audit(&f, &g, &rec).expect("fresh adds are legal");
    assert_eq!((rep.before, rep.added, rep.removed, rep.after), (3, 1, 0, 4));
}

#[test]
fn audit_allows_clone_laundering_and_reports_it() {
    let f = mix();
    let mut edits = vec![];
    let mut g = really_remove_dead(&f, &mut edits);
    let e = g.cell(CellId(0)).unwrap().region;
    let cell = Cell::new(e, CellKind::Const { ty: Type::I32, val: ConstVal::I32(7) });
    g.slab.push(Some(cell.clone()));
    g.regions[e.0 as usize].cells.insert(1, CellId(3));
    let mut rec = DiffRecord::new("a8");
    rec.edits = edits;
    rec.edits.push(Edit::AddCell { id: CellId(3), index: 1, cell });
    let rep = population_audit(&f, &g, &rec).expect("both halves are ledgered: within the law");
    assert_eq!((rep.added, rep.removed), (1, 1));
}

#[test]
fn audit_rejects_unreconciled_population() {
    let f = mix();
    let mut g = really_remove_dead(&f, &mut vec![]);
    let region = g.cell(CellId(0)).unwrap().region;
    g.regions[region.0 as usize].cells.retain(|&c| c != CellId(0));
    g.slab[0] = None;
    let mut rec = DiffRecord::new("a10");
    rec.edits.push(Edit::RemoveCell {
        id: CellId(1),
        ledger: "dead: no path to a terminator".into(),
        summary: render_cell(&f, CellId(1)),
    });
    let err = population_audit(&f, &g, &rec).unwrap_err();
    assert!(err.contains("does not reconcile"), "{}", err);
    assert_eq!(err, "population does not reconcile: 3 + 0 adds - 1 removes != 1 cells after");
}

#[test]
fn audit_summary_sees_the_records_own_retargets() {
    // the removed ret is reported as the pass saw it: after its retarget
    let f = mix();
    let mut g = f.clone();
    g.slab[2] = None;
    g.regions[0].cells.retain(|&c| c != CellId(2));
    let mut rec = DiffRecord::new("rewire");
    rec.edits.push(Edit::Retarget { cell: CellId(2), slot: 0, from: CellId(0), to: CellId(1) });
    rec.edits.push(Edit::RemoveCell { id: CellId(2), ledger: "gone".into(), summary: "%2 = ret %1".into() });
    let rep = population_audit(&f, &g, &rec).expect("summary matches the retargeted cell");
    assert_eq!((rep.before, rep.after, rep.added, rep.removed), (3, 2, 0, 1));
    let mut lie = DiffRecord::new("rewire");
    lie.edits.push(Edit::Retarget { cell: CellId(2), slot: 0, from: CellId(0), to: CellId(1) });
    lie.edits.push(Edit::RemoveCell { id: CellId(2), ledger: "gone".into(), summary: "%2 = ret %0".into() });
    assert!(population_audit(&f, &g, &lie).unwrap_err().starts_with("lying summary: %2"));
}

#[test]
fn audit_rejects_phantom_and_forged_removals() {
    let f = mix();
    let mut rec = DiffRecord::new("ph");
    rec.edits.push(Edit::AddCell { id: CellId(5), index: 0, cell: Cell::new(llvm_fabric::id::RegionId(0), CellKind::Ret) });
    assert_eq!(population_audit(&f, &f, &rec).unwrap_err(), "phantom add: %5 recorded but absent after the tick");
    let mut rec = DiffRecord::new("fr");
    rec.edits.push(Edit::RemoveCell { id: CellId(8), ledger: "x".into(), summary: String::new() });
    rec.edits.push(Edit::RemoveCell { id: CellId(6), ledger: "x".into(), summary: String::new() });
    assert_eq!(population_audit(&f, &f, &rec).unwrap_err(), "forged removal: %6 was not present before the tick");
}
