use llvm_fabric::ctrl::{controlling_regions, controlling_terminators, ctrl_edges, CtrlEdge};
use llvm_fabric::fabric::Fabric;
use llvm_fabric::fullprov::{check_full_prov, full_provenance};
use llvm_fabric::prov::render;
use llvm_fabric::id::{CellId, RegionId};
use llvm_fabric::region::reachable_regions;
use llvm_fabric::text::parse;

/// The diamond: entry branches to then/else, both jump to join.
fn diamond() -> Fabric {
    let text = "fabric v0\n\
region entry\n\
  %0 = param i32\n\
  %1 = const i32 42\n\
  %2 = arith.add i32 %0, %1\n\
  %3 = cmp.lt %2, %1\n\
  %5 = br %3, then, else\n\
region then\n\
  %4 = const i64 1i64\n\
  %6 = jump join\n\
region else\n\
  %7 = const i64 2i64\n\
  %8 = jump join\n\
region join\n\
  %9 = phi [then: %4] [else: %7]\n\
  %10 = ret %9\n";
    parse(text).expect("sample parses")
}

fn self_loop() -> Fabric {
    let text = "fabric v0\n\
region entry\n\
  %0 = const i1 true\n\
  %1 = br %0, body, exit\n\
region body\n\
  %2 = const i32 7\n\
  %3 = const i1 false\n\
  %4 = br %3, body, exit\n\
region exit\n\
  %5 = ret\n";
    parse(text).expect("loop fabric parses")
}

#[test]
fn ctrl_edges_are_the_terminator_wires() {
    let f = diamond();
    let edges = ctrl_edges(&f);
    assert_eq!(edges.len(), 4, "edges: {:?}", edges);
    assert!(edges.contains(&CtrlEdge { term: CellId(5), gated: RegionId(1) }));
    assert!(edges.contains(&CtrlEdge { term: CellId(5), gated: RegionId(2) }));
    assert!(edges.contains(&CtrlEdge { term: CellId(6), gated: RegionId(3) }));
    assert!(edges.contains(&CtrlEdge { term: CellId(8), gated: RegionId(3) }));
}

#[test]
fn closure_of_join_is_all_three_regions_terminators() {
    let f = diamond();
    let ts = controlling_terminators(&f, RegionId(3));
    assert_eq!(ts, vec![CellId(5), CellId(6), CellId(8)], "br + both jumps");
    let entry_ts = controlling_terminators(&f, RegionId(0));
    assert!(entry_ts.is_empty(), "entry has no in-fabric control origin");
}

#[test]
fn loops_do_not_hang_the_closure() {
    let f = self_loop();
    let ts = controlling_terminators(&f, RegionId(1));
    assert_eq!(ts, vec![CellId(1), CellId(4)], "entry br + own br (self-loop)");
    let node = full_provenance(&f, CellId(2)).expect("walk over loop closes");
    let r = render(&node);
    assert!(r.contains("ctrl: %1 = br"), "{}", r);
    assert!(r.contains("ctrl: %4 = br"), "{}", r);
    assert!(check_full_prov(&f, CellId(2)).is_ok());
}

#[test]
fn ctrl_edges_come_ordered_by_gated_region_then_terminator() {
    let f = diamond();
    let edges = ctrl_edges(&f);
    assert_eq!(
        edges,
        vec![
            CtrlEdge { term: CellId(5), gated: RegionId(1) },
            CtrlEdge { term: CellId(5), gated: RegionId(2) },
            CtrlEdge { term: CellId(6), gated: RegionId(3) },
            CtrlEdge { term: CellId(8), gated: RegionId(3) },
        ]
    );
}

#[test]
fn controlling_regions_of_join_and_of_a_loop() {
    let f = diamond();
    assert_eq!(controlling_regions(&f, RegionId(3)), vec![RegionId(0), RegionId(1), RegionId(2)]);
    assert_eq!(controlling_regions(&f, RegionId(1)), vec![RegionId(0)]);
    assert!(controlling_regions(&f, RegionId(0)).is_empty());
    let g = self_loop();
    // body lies on a cycle, so it gates itself
    assert_eq!(controlling_regions(&g, RegionId(1)), vec![RegionId(0), RegionId(1)]);
    assert_eq!(controlling_regions(&g, RegionId(2)), vec![RegionId(0), RegionId(1)]);
}

#[test]
fn reachable_regions_follow_the_terminators() {
    let f = diamond();
    assert_eq!(reachable_regions(&f), vec![0, 1, 2, 3]);
    let g = self_loop();
    assert_eq!(reachable_regions(&g), vec![0, 1, 2]);
    let text = "fabric v0\n\
region entry\n\
  %0 = ret\n\
region orphan\n\
  %1 = ret\n";
    let h = parse(text).expect("parses");
    assert_eq!(reachable_regions(&h), vec![0]);
    assert!(reachable_regions(&Fabric::empty()).is_empty());
}

#[test]
fn full_provenance_of_phi_crosses_the_control_edge() {
    let f = diamond();
    let node = full_provenance(&f, CellId(9)).expect("walk");
    let r = render(&node);
    assert!(r.contains("ctrl: %5 = br %3, then, else"), "{}", r);
    assert!(r.contains("%3 = cmp.lt %2, %1"), "{}", r);
    assert!(r.contains("%2 = arith.add i32 %0, %1"), "{}", r);
    assert!(r.contains("%0 = param i32"), "full walk must reach the branch cond's roots: {}", r);
    assert!(r.contains("ctrl: %6 = jump join"), "{}", r);
    assert!(r.contains("ctrl: %8 = jump join"), "{}", r);
    assert!(r.contains("const i64 1i64") && r.contains("const i64 2i64"), "{}", r);
    assert!(check_full_prov(&f, CellId(9)).is_ok());
}

#[test]
fn entry_cells_have_no_ctrl_children() {
    let f = diamond();
    let node = full_provenance(&f, CellId(2)).expect("walk");
    let r = render(&node);
    assert!(!r.contains("ctrl:"), "entry data walk must stay data-only: {}", r);
    assert!(r.contains("param i32"), "{}", r);
}

#[test]
fn missing_cell_is_still_an_error() {
    let f = diamond();
    assert!(full_provenance(&f, CellId(99)).is_err());
    assert_eq!(full_provenance(&f, CellId(99)).unwrap_err(), "no such cell %99");
}

#[test]
fn loop_carried_influence_is_cut_with_a_marker() {
    let text = "fabric v0\n\
region r0\n\
%0 = param i32\n\
%5 = const i32 -405\n\
%16 = jump r1\n\
region r1\n\
%8 = arith.add i32 %5, %0\n\
%9 = cmp.gt %8, %5\n\
%14 = phi [r0: %5] [r1: %8]\n\
%17 = br %9, r1, r1\n";
    let f = parse(text).expect("loops parse");
    let node = full_provenance(&f, CellId(8)).expect("loop fabric walks");
    let r = render(&node);
    assert!(r.contains("revisit: %8"), "the loop-carried self-dependence must be marked, not hidden: {}", r);
    assert!(check_full_prov(&f, CellId(8)).is_ok());
    let r2 = render(&full_provenance(&f, CellId(9)).unwrap());
    assert!(r2.contains("ctrl: %16 = jump"), "{}", r2);
    assert!(r2.contains("ctrl: %17 = br"), "{}", r2);
    assert!(check_full_prov(&f, CellId(9)).is_ok());
}

#[test]
fn full_provenance_renders_data_then_ctrl_children() {
    let f = diamond();
    let node = full_provenance(&f, CellId(4)).expect("walk");
    assert_eq!(
        render(&node),
        "%4 = const i64 1i64\n  ctrl: %5 = br %3, then, else\n    %3 = cmp.lt %2, %1\n      %2 = arith.add i32 %0, %1\n        %0 = param i32\n        %1 = const i32 42\n      %1 = const i32 42\n"
    );
}

#[test]
fn check_full_prov_names_a_non_root_leaf() {
    let text = "fabric v0\n\
region entry\n\
  %0 = const i1 true\n\
  %1 = br %0, a, b\n\
region a\n\
  %2 = jump b\n\
region b\n\
  %3 = arith.add i32 %2, %2\n\
  %4 = ret\n";
    let f = parse(text).expect("parses");
    assert_eq!(check_full_prov(&f, CellId(3)).unwrap_err(), "full provenance has non-root leaf %2");
}
