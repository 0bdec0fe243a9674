use llvm_fabric::fabric::Fabric;
use llvm_fabric::id::CellId;
use llvm_fabric::diff::{DiffRecord, Edit, History};
use llvm_fabric::prov::{check_prov, prov_history, provenance, render};
use llvm_fabric::text::parse;

fn diamond() -> Fabric {
    let text = "fabric v0\n\
region entry\n\
  %0 = param i32\n\
  %1 = const i32 42\n\
  %2 = arith.add i32 %0, %1\n\
  %3 = cmp.lt %2, %1\n\
  %5 = br %3, then, else\n\
region then\n\
  %4 = const i64 1i64\n\
  %6 = jump join\n\
region else\n\
  %7 = const i64 2i64\n\
  %8 = jump join\n\
region join\n\
  %9 = phi [then: %4] [else: %7]\n\
  %10 = ret %9\n";
    parse(text).expect("sample parses")
}

#[test]
fn provenance_of_phi_reaches_all_roots() {
    let f = diamond();
    let node = provenance(&f, CellId(9)).expect("walk");
    let r = render(&node);
    assert!(r.contains("phi"), "{}", r);
    assert!(r.contains("const i64 1i64"), "must reach then-arm const: {}", r);
    assert!(r.contains("const i64 2i64"), "must reach else-arm const: {}", r);
    assert!(!r.contains("param i32"), "data walk must not invent control deps: {}", r);
    assert!(check_prov(&f, CellId(9)).is_ok());
}

#[test]
fn provenance_of_const_is_itself() {
    let f = diamond();
    let node = provenance(&f, CellId(1)).expect("walk");
    assert!(node.children.is_empty());
    assert!(node.line.contains("42"));
}

#[test]
fn missing_cell_is_an_error_not_a_panic() {
    let f = diamond();
    assert!(provenance(&f, CellId(99)).is_err());
}

#[test]
fn cmp_provenance_shows_both_operands() {
    let f = diamond();
    let node = provenance(&f, CellId(3)).unwrap();
    assert_eq!(node.children.len(), 2);
    assert!(check_prov(&f, CellId(3)).is_ok());
}

#[test]
fn provenance_tree_renders_in_operand_order() {
    let f = diamond();
    let node = provenance(&f, CellId(3)).unwrap();
    assert_eq!(
        render(&node),
        "%3 = cmp.lt %2, %1\n  %2 = arith.add i32 %0, %1\n    %0 = param i32\n    %1 = const i32 42\n  %1 = const i32 42\n"
    );
}

#[test]
fn provenance_errors_are_named() {
    let f = diamond();
    assert_eq!(provenance(&f, CellId(99)).unwrap_err(), "no such cell %99");
    assert_eq!(check_prov(&f, CellId(99)).unwrap_err(), "no such cell %99");
}

#[test]
fn check_prov_names_non_root_leaves_and_non_value_cells() {
    let text = "fabric v0\n\
region entry\n\
  %0 = const i1 true\n\
  %1 = br %0, a, b\n\
region a\n\
  %2 = arith.add i32 %1, %1\n\
  %3 = jump b\n\
region b\n\
  %4 = arith.add i32 %3, %3\n\
  %5 = ret\n";
    let f = parse(text).expect("parses");
    assert_eq!(
        check_prov(&f, CellId(2)).unwrap_err(),
        "non-value cell %1 inside provenance tree"
    );
    assert_eq!(check_prov(&f, CellId(4)).unwrap_err(), "provenance of %4 has non-root leaves");
}

#[test]
fn prov_history_answers_for_a_dropped_cell() {
    let mut h = History::new();
    let mut r = DiffRecord::new("fold");
    r.edits.push(Edit::Retarget { cell: CellId(5), slot: 0, from: CellId(3), to: CellId(7) });
    r.edits.push(Edit::Retarget { cell: CellId(3), slot: 1, from: CellId(2), to: CellId(6) });
    h.push(r);
    let mut r = DiffRecord::new("dce");
    r.edits.push(Edit::RemoveCell { id: CellId(3), ledger: "folded into %7".into(), summary: String::new() });
    h.push(r);
    assert_eq!(
        prov_history(&h, CellId(3)),
        vec![
            (0, "fold", "retargeted use .1 %2 -> %6".to_string()),
            (1, "dce", "removed (folded into %7)".to_string()),
        ]
    );
}
