use llvm_fabric::cell::{ArithOp, Cell, CellKind};
use llvm_fabric::fabric::Fabric;
use llvm_fabric::id::{CellId, RegionId};
use llvm_fabric::ty::{ConstVal, Type};
use llvm_fabric::usetables::{kind_succs, UseTables};

/// Independent brute-force users computation (not via derive).
fn scan_users(f: &Fabric, def: CellId) -> Vec<(CellId, u32)> {
    let mut out = vec![];
    for user in f.cells() {
        if let Some(c) = f.cell(user) {
            for (slot, &op) in c.operands.iter().enumerate() {
                if op == def {
                    out.push((user, slot as u32));
                }
            }
        }
    }
    out
}

fn scan_preds(f: &Fabric, s: RegionId) -> Vec<RegionId> {
    let mut out = vec![];
    for (i, _) in f.regions.iter().enumerate() {
        let from = RegionId(i as u32);
        let succs = {
            let mut v = vec![];
            if let Some(region) = f.region(from) {
                if let Some(&last) = region.cells.last() {
                    if let Some(c) = f.cell(last) {
                        v = kind_succs(&c.kind);
                    }
                }
            }
            v
        };
        if succs.contains(&s) && !out.contains(&from) {
            out.push(from);
        }
    }
    out
}

/// entry: %0=param %1=const %2=add(%0,%1) %3=ret(%2)
fn entry_fabric() -> Fabric {
    let mut f = Fabric::empty();
    let e = f.add_region("entry");
    let p = f.add_cell(e, Cell::new(e, CellKind::Param { ty: Type::I32 }));
    let c = f.add_cell(e, Cell::new(e, CellKind::Const { ty: Type::I32, val: ConstVal::I32(42) }));
    let mut a = Cell::new(e, CellKind::Arith { op: ArithOp::Add, ty: Type::I32 });
    a.operands = vec![p, c];
    let a = f.add_cell(e, a);
    let mut r = Cell::new(e, CellKind::Ret);
    r.operands = vec![a];
    f.add_cell(e, r);
    f
}

/// A diamond with phis in the join.
fn diamond() -> Fabric {
    let text = "fabric v0\n\
region entry\n\
  %0 = param i32\n\
  %1 = const i1 true\n\
  %2 = br %1, t, el\n\
region t\n\
  %3 = const i32 1\n\
  %4 = jump j\n\
region el\n\
  %5 = const i32 2\n\
  %6 = jump j\n\
region j\n\
  %7 = phi [t: %3] [el: %5]\n\
  %8 = ret %7\n";
    llvm_fabric::text::parse(text).expect("diamond parses")
}

#[test]
fn queries_match_the_old_scan_on_a_diamond() {
    let f = diamond();
    for id in f.cells() {
        assert_eq!(f.uses_of(id).to_vec(), scan_users(&f, id), "uses_of({:?})", id);
    }
    for ri in 0..f.regions.len() as u32 {
        let r = RegionId(ri);
        assert_eq!(f.predecessors(r).to_vec(), scan_preds(&f, r), "preds({:?})", r);
    }
    assert_eq!(f.predecessors(RegionId(3)), &[RegionId(1), RegionId(2)]);
    assert_eq!(f.successors(RegionId(0)), &[RegionId(1), RegionId(2)]);
    assert_eq!(f.uses_of(CellId(1)), &[(CellId(2), 0)]);
}

#[test]
fn add_remove_retarget_keep_tables_derivable() {
    let mut f = diamond();

    // ADD: a new add in t feeding nothing yet
    let t = RegionId(1);
    let mut a = Cell::new(t, CellKind::Arith { op: ArithOp::Add, ty: Type::I32 });
    a.operands = vec![CellId(3), CellId(3)];
    let na = f.insert_cell(t, 1, a); // before t's jump (mid-region insert)
    assert_eq!(UseTables::derive(&f), f.tables);
    assert_eq!(f.uses_of(CellId(3)), &[(CellId(7), 0), (na, 0), (na, 1)]);

    // RETARGET: the phi's then-arm now reads the new add
    let old = f.retarget(CellId(7), 0, na).expect("phi slot 0");
    assert_eq!(old, CellId(3));
    assert_eq!(UseTables::derive(&f), f.tables);
    assert_eq!(f.uses_of(na), &[(CellId(7), 0)]);

    // SET_OPERANDS: rebuild the phi's operand list wholesale
    f.set_operands(CellId(7), &[CellId(3), CellId(5)]).expect("phi present");
    assert_eq!(UseTables::derive(&f), f.tables);

    // REMOVE: take the new add back out (mid-region)
    assert!(f.remove_cell(na).is_some());
    assert_eq!(UseTables::derive(&f), f.tables);
    assert_eq!(f.uses_of(CellId(3)), &[(CellId(7), 0)]);

    // SET_KIND on the entry terminator: Br -> Jmp keeps only `t`.
    f.set_kind(CellId(2), CellKind::Jump { target: RegionId(1) }).expect("br present");
    assert_eq!(UseTables::derive(&f), f.tables);
    assert_eq!(f.successors(RegionId(0)), &[RegionId(1)]);
    assert_eq!(f.predecessors(RegionId(2)), &[] as &[RegionId]); // el lost its pred
    assert_eq!(f.predecessors(RegionId(3)), &[RegionId(1), RegionId(2)]);

    // REMOVE the terminator: region loses its succs entirely
    assert!(f.remove_cell(CellId(2)).is_some());
    assert_eq!(UseTables::derive(&f), f.tables);
    assert_eq!(f.successors(RegionId(0)), &[] as &[RegionId]);
    assert_eq!(f.predecessors(RegionId(1)), &[] as &[RegionId]);

    // equality ignores tables: a re-derived twin must compare equal
    let mut twin = f.clone();
    twin.tables = UseTables::derive(&twin);
    assert_eq!(f, twin);
}

#[test]
fn sabotage_each_table_op_breaks_identity() {
    let f = entry_fabric();

    // sabotage 1: an add that never registers uses
    let mut ghost = f.clone();
    let e = ghost.entry().unwrap();
    let mut a = Cell::new(e, CellKind::Arith { op: ArithOp::Add, ty: Type::I32 });
    a.operands = vec![CellId(0), CellId(1)];
    ghost.slab.push(Some(a.clone()));
    ghost.regions[e.0 as usize].cells.insert(3, CellId(4)); // raw, table-blind
    assert_ne!(UseTables::derive(&ghost), ghost.tables, "a use-blind add must desync");

    // sabotage 2: a remove that never unregisters the removed cell's own
    // use edges
    let mut g = f.clone();
    g.slab[2] = None; // raw hole, table-blind
    g.regions[0].cells.retain(|&c| c != CellId(2));
    assert_ne!(UseTables::derive(&g), g.tables, "a use-blind remove must desync");

    // recovery: rebuild_tables re-derives, and the honest mutator path
    // keeps identity without any rebuild
    g.rebuild_tables();
    assert_eq!(UseTables::derive(&g), g.tables);
    let mut h = f;
    assert!(h.remove_cell(CellId(2)).is_some());
    assert_eq!(UseTables::derive(&h), h.tables, "remove_cell must keep tables derivable");
}

#[test]
fn rows_survive_def_removal_like_the_old_scan() {
    // users of a hole id: the old scan still listed them; so do we
    let f = entry_fabric();
    let mut forged = f.clone();
    forged.slab[2] = None;
    forged.rebuild_tables();
    assert_eq!(forged.uses_of(CellId(2)), &[(CellId(3), 0)], "hole def keeps its users row");
    assert_eq!(forged.uses_of(CellId(2)).to_vec(), scan_users(&forged, CellId(2)));
}
