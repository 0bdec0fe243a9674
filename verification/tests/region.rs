use llvm_fabric::diff::Edit;
use llvm_fabric::fabric::Fabric;
use llvm_fabric::id::{CellId, RegionId};
use llvm_fabric::region::{region_graft, region_remove};
use llvm_fabric::text::{parse, print};

fn const_diamond() -> Fabric {
    let text = "fabric v0\n\
region entry\n\
  %0 = const i1 true\n\
  %1 = br %0, t, el\n\
region t\n\
  %2 = const i32 1\n\
  %3 = jump j\n\
region el\n\
  %4 = const i32 2\n\
  %5 = jump j\n\
region j\n\
  %6 = phi [t: %2] [el: %4]\n\
  %7 = ret %6\n";
    parse(text).expect("const diamond parses")
}

#[test]
fn region_remove_standalone_refuses_referenced_regions() {
    let f = const_diamond();
    let err = region_remove(&f, RegionId(1)).expect_err("t is targeted");
    assert!(err.contains("still targets"), "{}", err);
    let err = region_remove(&f, RegionId(0)).expect_err("entry never removable");
    assert!(err.contains("entry"), "{}", err);
}

#[test]
fn region_remove_refusals_are_named() {
    let f = const_diamond();
    assert_eq!(
        region_remove(&f, RegionId(1)).unwrap_err(),
        "region_remove: 'entry' still targets 't' \u{2014} strip the edge first"
    );
    assert_eq!(region_remove(&f, RegionId(9)).unwrap_err(), "region_remove: no such region #9");
    assert_eq!(region_remove(&Fabric::empty(), RegionId(1)).unwrap_err(), "region_remove: fabric has no regions");
    let text = "fabric v0\n\
region entry\n\
  %0 = const i32 7\n\
  %1 = jump live\n\
region dead\n\
  %2 = const i32 99\n\
  %3 = jump live\n\
region live\n\
  %4 = phi [entry: %0] [dead: %2]\n\
  %5 = ret %4\n";
    let g = parse(text).expect("parses");
    assert_eq!(
        region_remove(&g, RegionId(1)).unwrap_err(),
        "region_remove: phi %4 outside '#1' joins on it \u{2014} strip joins first"
    );
}

#[test]
fn region_remove_drops_cells_and_compacts_ids() {
    let text = "fabric v0\n\
region entry\n\
  %0 = const i32 7\n\
  %1 = jump live\n\
region dead\n\
  %2 = const i32 99\n\
  %3 = jump live\n\
region live\n\
  %4 = ret %0\n";
    let f = parse(text).expect("parses");
    let (g, rec) = region_remove(&f, RegionId(1)).expect("dead is unreferenced");
    assert_eq!(print(&g), "fabric v0\nregion entry\n  %0 = const i32 7\n  %1 = jump live\nregion live\n  %4 = ret %0\n");
    assert_eq!(g.regions.len(), 2);
    assert!(g.cell(CellId(2)).is_none() && g.cell(CellId(3)).is_none());
    assert_eq!(g.cell(CellId(4)).unwrap().region, RegionId(1));
    assert_eq!(rec.pass, "region-remove");
    assert_eq!(rec.edits.len(), 2);
    match &rec.edits[0] {
        Edit::RemoveCell { id, ledger, summary } => {
            assert_eq!(*id, CellId(2));
            assert_eq!(ledger, "region-remove: 'dead' unreachable, all cells dropped with it");
            assert_eq!(summary, "%2 = const i32 99");
        }
        other => panic!("unexpected edit {:?}", other),
    }
    assert_eq!(
        rec.notes,
        vec!["region 'dead' removed and ids 2.. compacted \u{2014} NOT expressible in the Edit vocabulary (no RegionRemoved kind); recorded as a note".to_string()]
    );
    // the conservation law holds for the removal's record
    assert!(llvm_fabric::conserve::check(&f, &g, &rec).is_ok());
    assert!(llvm_fabric::conserve::population_audit(&f, &g, &rec).is_ok());
}

#[test]
fn region_graft_copies_cells_under_fresh_ids() {
    let f = const_diamond();
    let (g, nr, rec) = region_graft(&f, &f, RegionId(1), &vec![], &[(3, RegionId(3))], "g").expect("closed graft");
    assert_eq!(nr, RegionId(4));
    assert_eq!(g.regions.len(), 5);
    assert_eq!(g.regions[4].cells, vec![CellId(8), CellId(9)]);
    let text = print(&g);
    assert!(text.ends_with("region g\n  %8 = const i32 1\n  %9 = jump j\n"), "{}", text);
    assert_eq!(rec.pass, "region-graft");
    assert_eq!(rec.edits.len(), 2);
    match &rec.edits[1] {
        Edit::AddCell { id, index, .. } => {
            assert_eq!(*id, CellId(9));
            assert_eq!(*index, 1);
        }
        other => panic!("unexpected edit {:?}", other),
    }
    assert_eq!(
        rec.notes,
        vec!["region 't' grafted as 'g' \u{2014} RegionAdded inexpressible; cells carried as AddCell edits".to_string()]
    );
}

#[test]
fn region_graft_remaps_operands_and_joins() {
    let f = const_diamond();
    let cells = vec![(CellId(2), CellId(2)), (CellId(4), CellId(4))];
    let regions = [(1, RegionId(1)), (2, RegionId(2))];
    let (g, _, _) = region_graft(&f, &f, RegionId(3), &cells, &regions, "k").expect("graft");
    let text = print(&g);
    assert!(text.ends_with("region k\n  %8 = phi [t: %2] [el: %4]\n  %9 = ret %8\n"), "{}", text);
}

#[test]
fn region_graft_refusals_are_named() {
    let f = const_diamond();
    assert_eq!(
        region_graft(&f, &f, RegionId(1), &vec![], &[], "g").unwrap_err(),
        "graft: jump target 'j' unmapped"
    );
    assert_eq!(
        region_graft(&f, &f, RegionId(3), &vec![], &[(1, RegionId(1)), (2, RegionId(2))], "g").unwrap_err(),
        "graft: operand %2 of donor cell %6 is unmapped (bind params / graft dependencies first)"
    );
    let cells = vec![(CellId(2), CellId(2)), (CellId(4), CellId(4))];
    assert_eq!(
        region_graft(&f, &f, RegionId(3), &cells, &[(1, RegionId(1))], "g").unwrap_err(),
        "graft: phi join 'el' unmapped"
    );
}
