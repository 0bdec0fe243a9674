use llvm_fabric::cell::{ArithOp, Cell, CellKind};
use llvm_fabric::diff::{contains_str, DiffRecord, Edit, History};
use llvm_fabric::fabric::Fabric;
use llvm_fabric::id::CellId;
use llvm_fabric::ty::{ConstVal, Type};

#[test]
fn epochs_assigned_monotonically() {
    let mut h = History::new();
    let e0 = h.push(DiffRecord::new("a"));
    let e1 = h.push(DiffRecord::new("b"));
    assert_eq!((e0, e1), (0, 1));
    assert_eq!(h.records[1].epoch, 1);
}

#[test]
fn mentions_of_sees_all_roles() {
    let mut h = History::new();
    let mut r = DiffRecord::new("p");
    r.edits.push(Edit::Retarget { cell: CellId(3), slot: 0, from: CellId(1), to: CellId(9) });
    h.push(r);
    let m = h.mentions_of(CellId(3));
    assert_eq!(m.len(), 1);
    assert!(m[0].2.contains("retargeted"));
}

#[test]
fn v0_push_only_history_is_labeled_pre_law_not_rejected() {
    let mut h = History::new();
    h.push(DiffRecord::new("old"));
    assert!(h.check_weft().is_ok(), "v0-style: empty weft is allowed (pre-law)");
}

/// entry: %0 param, %1 const 20, %2 const 22, %3 add %1 %2, %4 const i64 7,
/// %5 add %0 %3, %6 ret %5
fn mix() -> Fabric {
    let mut f = Fabric::empty();
    let e = f.add_region("entry");
    let p = f.add_cell(e, Cell::new(e, CellKind::Param { ty: Type::I32 }));
    let c1 = f.add_cell(e, Cell::new(e, CellKind::Const { ty: Type::I32, val: ConstVal::I32(20) }));
    let c2 = f.add_cell(e, Cell::new(e, CellKind::Const { ty: Type::I32, val: ConstVal::I32(22) }));
    let mut a = Cell::new(e, CellKind::Arith { op: ArithOp::Add, ty: Type::I32 });
    a.operands = vec![c1, c2];
    let a = f.add_cell(e, a);
    f.add_cell(e, Cell::new(e, CellKind::Const { ty: Type::I64, val: ConstVal::I64(7) }));
    let mut a2 = Cell::new(e, CellKind::Arith { op: ArithOp::Add, ty: Type::I32 });
    a2.operands = vec![p, a];
    let a2 = f.add_cell(e, a2);
    let mut r = Cell::new(e, CellKind::Ret);
    r.operands = vec![a2];
    f.add_cell(e, r);
    f
}

/// Four signed ticks: two that advance (each removes a dead cell) and two
/// fixed points; returns the history and the stages.
fn signed_history() -> (History, Vec<Fabric>) {
    let f0 = mix();
    let mut stages = vec![f0.clone()];
    let mut h = History::new();
    let mut cur = f0;
    let mut rec = DiffRecord::new("dce");
    let summary = llvm_fabric::text::render_cell(&cur, CellId(4));
    cur.remove_cell(CellId(4));
    rec.edits.push(Edit::RemoveCell { id: CellId(4), ledger: "dead".into(), summary });
    h.push_tick(rec, &cur);
    stages.push(cur.clone());
    h.push_tick(DiffRecord::new("constfold"), &cur);
    stages.push(cur.clone());
    let mut rec = DiffRecord::new("dce");
    let summary = llvm_fabric::text::render_cell(&cur, CellId(6));
    cur.remove_cell(CellId(6));
    rec.edits.push(Edit::RemoveCell { id: CellId(6), ledger: "dead".into(), summary });
    h.push_tick(rec, &cur);
    stages.push(cur.clone());
    h.push_tick(DiffRecord::new("constfold"), &cur);
    stages.push(cur.clone());
    (h, stages)
}

#[test]
fn signed_ticks_keep_the_progress_law_and_verify() {
    let (h, stages) = signed_history();
    assert_eq!(h.weft.len(), h.records.len());
    assert!(h.check_weft().is_ok());
    assert!(h.weft[0].advanced);
    assert_eq!(h.weft[0].note, "advanced (1 edits)");
    assert!(!h.weft[1].advanced);
    assert_eq!(h.weft[1].note, "fixed point \u{2014} no edits fired");
    assert!(h.verify_chain(&stages).is_ok());
    for (i, t) in h.weft.iter().enumerate() {
        assert_eq!(t.epoch, i as u64);
    }
}

#[test]
fn partial_signed_history_violates_the_progress_law() {
    let (mut h, _) = signed_history();
    h.weft.pop();
    let err = h.check_weft().unwrap_err();
    assert_eq!(err, "progress law violated: weft covers 3/4 ticks \u{2014} partial recording is forbidden");
}

#[test]
fn blank_or_silent_notes_violate_the_progress_law() {
    let (mut h, _) = signed_history();
    h.weft[1].note = "  ".into();
    assert_eq!(h.check_weft().unwrap_err(), "progress law violated: tick 1 has a blank note");
    let (mut h, _) = signed_history();
    h.weft[3].note = "nothing happened".into();
    assert_eq!(
        h.check_weft().unwrap_err(),
        "progress law violated: tick 3 neither advanced nor declared fixed point"
    );
    let (mut h, _) = signed_history();
    h.weft[2].epoch = 7;
    assert_eq!(h.check_weft().unwrap_err(), "progress law violated: weft[2] has epoch 7");
}

#[test]
fn a_tampered_stage_breaks_the_chain_naming_its_tick() {
    let (h, mut stages) = signed_history();
    let mut g = stages[1].clone();
    if let Some(Some(c)) = g.slab.get_mut(1) {
        if let CellKind::Const { val, .. } = &mut c.kind {
            *val = ConstVal::I32(999);
        }
    }
    stages[1] = g;
    let err = h.verify_chain(&stages).unwrap_err();
    assert!(err.starts_with("chain verification: tick 0 recorded sig "), "{}", err);
    assert!(err.ends_with(" \u{2014} history does not match the fabric"), "{}", err);
    let hex = &err["chain verification: tick 0 recorded sig ".len().."chain verification: tick 0 recorded sig ".len() + 16];
    assert_eq!(hex, format!("{:016x}", h.weft[0].sig));
    let short = &stages[..2];
    assert_eq!(h.verify_chain(short).unwrap_err(), "chain verification: 2 stages for 4 weft entries");
}

#[test]
fn a_relinked_chain_is_caught() {
    let (mut h, stages) = signed_history();
    h.weft[2].chain ^= 1;
    assert_eq!(h.verify_chain(&stages).unwrap_err(), "chain verification: tick 2 does not re-link");
}

#[test]
fn mentions_of_lists_every_role_in_epoch_order() {
    let mut h = History::new();
    let mut r = DiffRecord::new("add");
    r.edits.push(Edit::AddCell { id: CellId(3), index: 0, cell: Cell::new(llvm_fabric::id::RegionId(0), CellKind::Ret) });
    h.push(r);
    let mut r = DiffRecord::new("wire");
    r.edits.push(Edit::Retarget { cell: CellId(3), slot: 2, from: CellId(1), to: CellId(9) });
    r.edits.push(Edit::Retarget { cell: CellId(4), slot: 0, from: CellId(3), to: CellId(5) });
    h.push(r);
    let mut r = DiffRecord::new("dce");
    r.edits.push(Edit::RemoveCell { id: CellId(3), ledger: "dead".into(), summary: String::new() });
    h.push(r);
    let m = h.mentions_of(CellId(3));
    assert_eq!(
        m,
        vec![
            (0, "add", "added".to_string()),
            (1, "wire", "retargeted use .2 %1 -> %9".to_string()),
            (2, "dce", "removed (dead)".to_string()),
        ]
    );
}

#[test]
fn substring_search() {
    assert!(contains_str("a fixed point here", "fixed point"));
    assert!(!contains_str("fixed poin", "fixed point"));
    assert!(contains_str("abc", ""));
}

#[test]
fn records_render_line_by_line() {
    let mut f = Fabric::empty();
    let e = f.add_region("entry");
    f.add_cell(e, Cell::new(e, CellKind::Param { ty: Type::I32 }));
    let mut rec = DiffRecord::new("p");
    rec.epoch = 3;
    rec.notes.push("skipped %9: not a call".to_string());
    let mut c = Cell::new(e, CellKind::Arith { op: ArithOp::Add, ty: Type::I32 });
    c.operands = vec![CellId(0)];
    rec.edits.push(Edit::AddCell { id: CellId(1), index: 0, cell: c });
    rec.edits.push(Edit::RemoveCell { id: CellId(0), ledger: "dead".into(), summary: "%0 = param i32".into() });
    rec.edits.push(Edit::Retarget { cell: CellId(1), slot: 1, from: CellId(0), to: CellId(2) });
    let text = rec.render(&f);
    assert_eq!(
        text,
        "epoch 3 pass p\n  # note: skipped %9: not a call\n  + %1 @ entry[0] :: %1 = arith.add i32 %0, %<missing>\n  - %0 (dead) :: %0 = param i32\n  ~ %1.1: %0 -> %2\n"
    );
    let mut h = History::new();
    h.push(rec.clone());
    h.push(DiffRecord::new("q"));
    let all = h.render(&f);
    assert_eq!(all, format!("{}epoch 1 pass q\n", rec.render(&f).replace("epoch 3", "epoch 0")));
    assert_eq!(h.bytes(&f), all.len());
}

fn run_pipeline(f: &Fabric) -> (Fabric, History, Vec<Fabric>) {
    llvm_fabric::pipeline::run(f).expect("pipeline")
}

#[test]
fn weft_records_every_tick_with_progress() {
    let f = mix();
    let (final_f, h, stages) = run_pipeline(&f);
    assert_eq!(h.weft.len(), h.records.len(), "one weft entry per tick");
    assert!(h.check_weft().is_ok());
    assert!(h.weft[0].advanced && h.weft[0].note.contains("advanced"));
    assert!(!h.weft[2].advanced, "second constfold fires nothing: {:?}", h.weft[2].note);
    assert!(h.weft[2].note.contains("fixed point"), "{}", h.weft[2].note);
    assert!(h.verify_chain(&stages).is_ok());
    let _ = final_f;
}

#[test]
fn tampered_stage_breaks_the_chain_with_the_tick_number() {
    let f = mix();
    let (_, h, mut stages) = run_pipeline(&f);
    let mut g = stages[1].clone();
    let ids: Vec<_> = g.cells();
    for id in ids {
        if let Some(c) = g.cell_mut(id) {
            if let CellKind::Const { val, .. } = &mut c.kind {
                *val = ConstVal::I32(999);
            }
        }
    }
    stages[1] = g;
    let err = h.verify_chain(&stages).unwrap_err();
    assert!(err.contains("tick 0"), "{}", err);
}

#[test]
fn partial_weft_violates_the_law() {
    let f = mix();
    let (_, mut h, _) = run_pipeline(&f);
    h.weft.pop();
    let err = h.check_weft().unwrap_err();
    assert!(err.contains("progress law"), "{}", err);
    assert!(err.contains("3/4"), "{}", err);
}

#[test]
fn blank_note_violates_the_law() {
    let f = mix();
    let (_, mut h, _) = run_pipeline(&f);
    h.weft[1].note = "  ".into();
    assert!(h.check_weft().is_err());
}
