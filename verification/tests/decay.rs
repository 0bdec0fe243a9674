use llvm_fabric::cell::{ArithOp, Cell, CellKind};
use llvm_fabric::decay::{classify, DeathCert, DecayClass};
use llvm_fabric::ty::{ConstVal, Type};
use llvm_fabric::id::CellId;

#[test]
fn certificate_render_parse_round_trips() {
    let c = DeathCert { cell: CellId(7), killer: "dce-decay".into(), tick: 3, users: 0 };
    assert_eq!(DeathCert::parse(&c.render(), CellId(7)), Some(c));
    assert!(DeathCert::parse("dead: no path", CellId(7)).is_none());
    assert!(DeathCert::parse("death{killer=x tick=1 users=0 witness=wrong}", CellId(7)).is_none());
    assert!(DeathCert::parse("death{killer=x tick=1 witness=no-demand}", CellId(7)).is_none());
}

#[test]
fn certificate_rendered_form_is_byte_stable() {
    let c = DeathCert { cell: CellId(1), killer: "dce-decay".into(), tick: 3, users: 0 };
    assert_eq!(c.render(), "death{killer=dce-decay tick=3 users=0 witness=no-demand}");
}

#[test]
fn certificate_round_trip_on_extreme_values() {
    let c = DeathCert { cell: CellId(9), killer: "a=b}".into(), tick: u64::MAX, users: u32::MAX };
    assert_eq!(DeathCert::parse(&c.render(), CellId(9)), Some(c));
}

#[test]
fn certificate_fields_in_any_order_later_wins() {
    let got = DeathCert::parse("death{users=2 witness=no-demand tick=5 killer=k killer=z}", CellId(4));
    assert_eq!(got, Some(DeathCert { cell: CellId(4), killer: "z".into(), tick: 5, users: 2 }));
}

#[test]
fn certificate_rejects_malformed_forms() {
    assert!(DeathCert::parse("death{}", CellId(0)).is_none());
    assert!(DeathCert::parse("death{", CellId(0)).is_none());
    assert!(DeathCert::parse("death{killer=x  tick=1 users=0 witness=no-demand}", CellId(0)).is_none());
    assert!(DeathCert::parse("death{killer=x tick=-1 users=0 witness=no-demand}", CellId(0)).is_none());
    assert!(DeathCert::parse("death{killer=x tick=1 users=4294967296 witness=no-demand}", CellId(0)).is_none());
    assert!(DeathCert::parse("death{killer=x tick=1 users=0 witness=no-demand color=red}", CellId(0)).is_none());
    assert!(DeathCert::parse("death{killer tick=1 users=0 witness=no-demand}", CellId(0)).is_none());
}

#[test]
fn decay_class_defaults_to_dead() {
    assert_eq!(DecayClass::default(), DecayClass::Dead);
}


fn fabric_mixed() -> (llvm_fabric::fabric::Fabric, CellId, CellId, CellId) {
    let mut f = llvm_fabric::fabric::Fabric::empty();
    let e = f.add_region("entry");
    let p = f.add_cell(e, Cell::new(e, CellKind::Param { ty: Type::I32 }));
    let c1 = f.add_cell(e, Cell::new(e, CellKind::Const { ty: Type::I32, val: ConstVal::I32(20) }));
    let c2 = f.add_cell(e, Cell::new(e, CellKind::Const { ty: Type::I32, val: ConstVal::I32(22) }));
    let mut a1 = Cell::new(e, CellKind::Arith { op: ArithOp::Add, ty: Type::I32 });
    a1.operands = vec![c1, c2];
    let a1 = f.add_cell(e, a1);
    let dead_c = f.add_cell(e, Cell::new(e, CellKind::Const { ty: Type::I64, val: ConstVal::I64(7) }));
    let mut a2 = Cell::new(e, CellKind::Arith { op: ArithOp::Add, ty: Type::I32 });
    a2.operands = vec![p, a1];
    let a2 = f.add_cell(e, a2);
    let mut r = Cell::new(e, CellKind::Ret);
    r.operands = vec![a2];
    f.add_cell(e, r);
    (f, c1, dead_c, a2)
}

/// The record a decay sweep at `tick` lands for the mixed fabric: the one
/// dead const, certified.
fn decay_record(f: &llvm_fabric::fabric::Fabric, dead: CellId, tick: u64) -> llvm_fabric::diff::DiffRecord {
    let mut rec = llvm_fabric::diff::DiffRecord::new("dce-decay");
    rec.epoch = tick;
    rec.edits.push(llvm_fabric::diff::Edit::RemoveCell {
        id: dead,
        ledger: DeathCert { cell: dead, killer: "dce-decay".into(), tick, users: 0 }.render(),
        summary: llvm_fabric::text::render_cell(f, dead),
    });
    rec
}

#[test]
fn live_closure_is_the_demanded_cells() {
    let (f, _c1, dead_c, _a2) = fabric_mixed();
    let live = llvm_fabric::decay::live_closure(&f);
    assert_eq!(live, vec![CellId(0), CellId(1), CellId(2), CellId(3), CellId(5), CellId(6)]);
    assert!(!live.contains(&dead_c));
}

#[test]
fn classification_uses_demand_now_and_the_fate_given() {
    let (f, c1, dead_c, _a2) = fabric_mixed();
    let eventually = vec![CellId(1), CellId(2), CellId(3), CellId(4), CellId(5)];
    let classes = classify(&f, &eventually);
    assert_eq!(classes.len(), 7);
    assert_eq!(classes[dead_c.0 as usize], (dead_c, DecayClass::Dead));
    assert_eq!(classes[c1.0 as usize], (c1, DecayClass::Cold));
    assert_eq!(classes[6], (CellId(6), DecayClass::Warm));
    assert_eq!(classes[0], (CellId(0), DecayClass::Warm));
}

#[test]
fn a_certified_decay_record_verifies_and_lists_its_deaths() {
    let (f, _c1, dead_c, _a2) = fabric_mixed();
    let rec = decay_record(&f, dead_c, 0);
    assert!(llvm_fabric::decay::verify_deaths(&f, &rec).is_ok());
    let certs = llvm_fabric::decay::deaths(&rec);
    assert_eq!(certs.len(), 1);
    assert_eq!(certs[0].cell, dead_c);
    assert_eq!(certs[0].killer, "dce-decay");
    assert_eq!(certs[0].users, 0);
}

#[test]
fn a_bogus_kill_is_rejected_naming_the_demand_chain() {
    let (f, c1, dead_c, _a2) = fabric_mixed();
    let mut forged = decay_record(&f, dead_c, 0);
    let users = f.uses_of(c1).len() as u32;
    forged.edits.push(llvm_fabric::diff::Edit::RemoveCell {
        id: c1,
        ledger: DeathCert { cell: c1, killer: "dce-decay".into(), tick: 0, users }.render(),
        summary: "%1 = const i32 20".into(),
    });
    let err = llvm_fabric::decay::verify_deaths(&f, &forged).unwrap_err();
    assert_eq!(
        err,
        "death rejected: bogus kill of %1 \u{2014} the cell is LIVE; demand chain %1 -> %3 -> %5 -> %6 holds it"
    );
    assert_eq!(
        llvm_fabric::decay::demand_path(&f, c1),
        Some(vec![CellId(1), CellId(3), CellId(5), CellId(6)])
    );
    assert_eq!(llvm_fabric::decay::demand_path(&f, dead_c), None);
}

#[test]
fn tampered_certificates_are_rejected() {
    let (f, _c1, dead_c, _a2) = fabric_mixed();
    let mut t = decay_record(&f, dead_c, 1);
    if let llvm_fabric::diff::Edit::RemoveCell { ledger, .. } = &mut t.edits[0] {
        *ledger = DeathCert { cell: dead_c, killer: "dce-decay".into(), tick: 1, users: 5 }.render();
    }
    assert_eq!(
        llvm_fabric::decay::verify_deaths(&f, &t).unwrap_err(),
        "death rejected: %4's certificate claims 5 users but the pre-tick fabric has 0"
    );
    let mut t = decay_record(&f, dead_c, 2);
    if let llvm_fabric::diff::Edit::RemoveCell { ledger, .. } = &mut t.edits[0] {
        *ledger = DeathCert { cell: dead_c, killer: "dce-decay".into(), tick: 9, users: 0 }.render();
    }
    assert_eq!(
        llvm_fabric::decay::verify_deaths(&f, &t).unwrap_err(),
        "death rejected: %4's certificate names tick 9 but the diff lands at epoch 2"
    );
    let mut t = decay_record(&f, dead_c, 2);
    if let llvm_fabric::diff::Edit::RemoveCell { ledger, .. } = &mut t.edits[0] {
        *ledger = DeathCert { cell: dead_c, killer: "other-pass".into(), tick: 2, users: 0 }.render();
    }
    assert_eq!(
        llvm_fabric::decay::verify_deaths(&f, &t).unwrap_err(),
        "death rejected: %4's certificate names killer 'other-pass' but the diff records 'dce-decay'"
    );
    let mut t = decay_record(&f, dead_c, 0);
    if let llvm_fabric::diff::Edit::RemoveCell { ledger, .. } = &mut t.edits[0] {
        *ledger = "dead: no path to a terminator".into();
    }
    assert!(llvm_fabric::decay::verify_deaths(&f, &t).unwrap_err().contains("without a certificate"));
    let mut t = decay_record(&f, dead_c, 0);
    if let llvm_fabric::diff::Edit::RemoveCell { id, ledger, .. } = &mut t.edits[0] {
        *id = CellId(40);
        *ledger = DeathCert { cell: CellId(40), killer: "dce-decay".into(), tick: 0, users: 0 }.render();
    }
    assert_eq!(
        llvm_fabric::decay::verify_deaths(&f, &t).unwrap_err(),
        "death rejected: %40's certificate names a cell that was not present pre-tick"
    );
}

#[test]
fn green_decay_kill_carries_a_certificate_that_verifies() {
    let (f, _c1, dead_c, _a2) = fabric_mixed();
    let ctx = llvm_fabric::manager::TickCtx { tick: 0 };
    let (g, rec) = llvm_fabric::dce::dce_decay(&f, &ctx).expect("decay");
    assert!(g.cell(dead_c).is_none(), "zero-demand cell dies");
    assert!(llvm_fabric::pipeline::ready_copy(&g).is_some());
    let certs = llvm_fabric::decay::deaths(&rec);
    assert_eq!(certs.len(), 1, "exactly the one dead cell");
    let c = &certs[0];
    assert_eq!(c.cell, dead_c);
    assert_eq!(c.killer, "dce-decay");
    assert_eq!(c.tick, 0);
    assert_eq!(c.users, 0, "the dead const has no users");
    assert!(llvm_fabric::decay::verify_deaths(&f, &rec).is_ok(), "real certificate verifies");
    assert!(f.cell(dead_c).is_some());
}

#[test]
fn bogus_kill_of_a_live_cell_is_rejected_naming_the_demand_chain() {
    let (f, c1, _dead, _a2) = fabric_mixed();
    let ctx = llvm_fabric::manager::TickCtx { tick: 0 };
    let (_g, rec) = llvm_fabric::dce::dce_decay(&f, &ctx).expect("decay");
    let mut forged = rec.clone();
    let users = f.uses_of(c1).len() as u32;
    forged.edits.push(llvm_fabric::diff::Edit::RemoveCell {
        id: c1,
        ledger: DeathCert { cell: c1, killer: "dce-decay".into(), tick: 0, users }.render(),
        summary: "%1 = const i32 20".into(),
    });
    let err = llvm_fabric::decay::verify_deaths(&f, &forged).err().expect("bogus kill must be rejected");
    assert!(err.contains("rejected"), "{}", err);
    assert!(err.contains("LIVE"), "{}", err);
    assert!(err.contains("->"), "{} — the demand chain is named", err);
    assert!(err.contains(c1.to_text().as_str()), "{}", err);
}

#[test]
fn tampered_witness_count_is_rejected() {
    let (f, _c1, dead_c, _a2) = fabric_mixed();
    let ctx = llvm_fabric::manager::TickCtx { tick: 1 };
    let (_g, rec) = llvm_fabric::dce::dce_decay(&f, &ctx).expect("decay");
    let mut tampered = rec.clone();
    if let llvm_fabric::diff::Edit::RemoveCell { ledger, .. } = &mut tampered.edits[0] {
        *ledger = DeathCert { cell: dead_c, killer: "dce-decay".into(), tick: 1, users: 5 }.render();
    }
    let err = llvm_fabric::decay::verify_deaths(&f, &tampered).err().expect("tampered users must be rejected");
    assert!(err.contains("claims 5 users"), "{}", err);
    assert!(err.contains("0"), "{}", err);
}

#[test]
fn tampered_tick_and_killer_are_rejected() {
    let (f, _c1, dead_c, _a2) = fabric_mixed();
    let (_g, rec) = llvm_fabric::dce::dce_decay(&f, &llvm_fabric::manager::TickCtx { tick: 2 }).expect("decay");
    let mut t = rec.clone();
    if let llvm_fabric::diff::Edit::RemoveCell { ledger, .. } = &mut t.edits[0] {
        *ledger = DeathCert { cell: dead_c, killer: "dce-decay".into(), tick: 9, users: 0 }.render();
    }
    t.epoch = 2;
    let err = llvm_fabric::decay::verify_deaths(&f, &t).err().expect("wrong tick must be rejected");
    assert!(err.contains("tick 9"), "{}", err);
    let mut k = rec.clone();
    if let llvm_fabric::diff::Edit::RemoveCell { ledger, .. } = &mut k.edits[0] {
        *ledger = DeathCert { cell: dead_c, killer: "other-pass".into(), tick: 2, users: 0 }.render();
    }
    k.epoch = 2;
    let err = llvm_fabric::decay::verify_deaths(&f, &k).err().expect("wrong killer must be rejected");
    assert!(err.contains("other-pass"), "{}", err);
}

#[test]
fn bare_prose_ledger_is_not_a_certificate() {
    let (f, _c1, dead_c, _a2) = fabric_mixed();
    let (_g, mut rec) = llvm_fabric::dce::dce_decay(&f, &llvm_fabric::manager::TickCtx { tick: 0 }).expect("decay");
    if let llvm_fabric::diff::Edit::RemoveCell { ledger, .. } = &mut rec.edits[0] {
        *ledger = "dead: no path to a terminator".into();
    }
    let err = llvm_fabric::decay::verify_deaths(&f, &rec).err().expect("prose must not pass as a certificate");
    assert!(err.contains("without a certificate"), "{}", err);
    let _ = dead_c;
}
