use llvm_fabric::cell::{Cell, CellKind};
use llvm_fabric::fabric::Fabric;
use llvm_fabric::id::CellId;
use llvm_fabric::text::{parse, print};
use llvm_fabric::ty::{ConstVal, Type};

fn sample() -> Fabric {
    let text = r#"fabric v0
region entry
  %0 = param i32
  %1 = const i32 42
  %2 = arith.add i32 %0, %1
  %3 = cmp.lt %2, %1
  %5 = br %3, then, else
region then
  %4 = const i64 1i64
  %6 = jump join
region else
  %7 = const i64 2i64
  %8 = jump join
region join
  %9 = phi [then: %4] [else: %7]
  %10 = ret %9
"#;
    parse(text).expect("sample must parse")
}

#[test]
fn print_then_parse_then_print_is_identity() {
    let f = sample();
    let once = print(&f);
    let f2 = parse(&once).expect("reparsed");
    let twice = print(&f2);
    assert_eq!(once, twice, "canonical print must roundtrip");
}

#[test]
fn parse_reports_line_numbers() {
    let bad = "fabric v0\nregion entry\n  %0 = bogus i32\n";
    let e = parse(bad).unwrap_err();
    assert_eq!(e.line, 3, "error must point at the offending line: {}", e.to_text());
    assert!(e.message.contains("bogus"), "message names the problem: {}", e.to_text());
}

#[test]
fn parse_rejects_missing_header() {
    let e = parse("region entry\n").unwrap_err();
    assert!(e.message.contains("header"));
}

#[test]
fn parse_rejects_unknown_region_ref() {
    let bad = "fabric v0\nregion entry\n  %0 = const i32 1\n  %1 = jump nowhere\n";
    let e = parse(bad).unwrap_err();
    assert!(e.message.contains("nowhere"));
}

#[test]
fn ids_survive_holes_on_roundtrip() {
    // Build a fabric with a hole: place %0 and %2, skip %1.
    let mut f = Fabric::empty();
    let e = f.add_region("entry");
    f.place_cell(CellId(0), Cell::new(e, CellKind::Const { ty: Type::I32, val: ConstVal::I32(1) })).unwrap();
    f.place_cell(CellId(2), Cell::new(e, CellKind::Const { ty: Type::I32, val: ConstVal::I32(2) })).unwrap();
    let t1 = print(&f);
    assert!(t1.contains("%0"));
    assert!(t1.contains("%2"));
    assert!(!t1.contains("%1"), "hole must not be printed: {}", t1);
    let f2 = parse(&t1).unwrap();
    assert!(f2.cell(CellId(1)).is_none(), "hole must come back as a hole");
    assert_eq!(print(&f2), t1);
}

#[test]
fn print_of_sample_is_exact() {
    let f = sample();
    let want = "fabric v0\nregion entry\n  %0 = param i32\n  %1 = const i32 42\n  %2 = arith.add i32 %0, %1\n  %3 = cmp.lt %2, %1\n  %5 = br %3, then, else\nregion then\n  %4 = const i64 1i64\n  %6 = jump join\nregion else\n  %7 = const i64 2i64\n  %8 = jump join\nregion join\n  %9 = phi [then: %4] [else: %7]\n  %10 = ret %9\n";
    assert_eq!(print(&f), want);
    assert_eq!(f.slab.len(), 11);
}

#[test]
fn parse_error_messages_are_exact() {
    let cases: Vec<(&str, usize, &str)> = vec![
        ("fabric v1\n", 1, "expected header 'fabric v0', got 'fabric v1'"),
        ("", 1, "missing 'fabric v0' header"),
        ("\n\n; only comments\n", 3, "missing 'fabric v0' header"),
        ("fabric v0\nregion a b\n", 2, "region line must be 'region NAME'"),
        ("fabric v0\nregion 9a\n", 2, "bad region name '9a'"),
        ("fabric v0\nregion a\nregion a\n", 3, "duplicate region name 'a'"),
        ("fabric v0\n%0 = ret\n", 2, "cell before any region declaration"),
        ("fabric v0\nregion a\n%0 ret\n", 3, "every cell line must be '%id = ...'"),
        ("fabric v0\nregion a\n0 = ret\n", 3, "bad cell id '0'"),
        ("fabric v0\nregion a\n%0 = param\n", 3, "param takes one type"),
        ("fabric v0\nregion a\n%0 = param i8\n", 3, "bad type 'i8'"),
        ("fabric v0\nregion a\n%0 = const i32 x\n", 3, "bad constant 'x' for i32"),
        ("fabric v0\nregion a\n%0 = arith.pow i32 %1, %2\n", 3, "bad arith op 'arith.pow'"),
        ("fabric v0\nregion a\n%0 = cmp.xx %1, %2\n", 3, "bad cmp op 'cmp.xx'"),
        ("fabric v0\nregion a\n%0 = cmp.eq %1\n", 3, "cmp takes A B"),
        ("fabric v0\nregion a\n%0 = br %1, a\n", 3, "br takes COND THEN ELSE"),
        ("fabric v0\nregion a\n%0 = jump\n", 3, "jump takes TARGET"),
        ("fabric v0\nregion a\n%0 = phi\n", 3, "phi needs at least one join"),
        ("fabric v0\nregion a\n%0 = phi [a:\n", 3, "bad phi join '[a:'"),
        ("fabric v0\nregion a\n%0 = phi [a %1]\n", 3, "bad phi join '[a %1]'"),
        ("fabric v0\nregion a\n%0 = ret %1 %2\n", 3, "ret takes zero or one operand"),
        ("fabric v0\nregion a\n%0 = ret x\n", 3, "bad operand 'x'"),
        ("fabric v0\nregion a\n%0 = ret\n%0 = ret\n", 4, "cell %0 assigned twice"),
    ];
    for (text, line, msg) in cases {
        let e = parse(text).unwrap_err();
        assert_eq!((e.line, e.message.as_str()), (line, msg), "for {:?}", text);
    }
}

#[test]
fn phi_join_may_be_split_over_two_tokens() {
    let f = parse("fabric v0\nregion a\n  %0 = const i32 1\n  %1 = jump a\nregion b\n  %2 = phi [a:%0] [a: %0]\n  %3 = ret %2\n").unwrap();
    let c = f.cell(CellId(2)).unwrap();
    assert_eq!(c.operands, vec![CellId(0), CellId(0)]);
    assert!(print(&f).contains("%2 = phi [a: %0] [a: %0]"));
}

#[test]
fn comments_and_trailing_commas_are_ignored() {
    let f = parse("fabric v0 ; header\nregion a ; entry\n  %0 = const i1 true,\n  %1 = ret %0 ; done\n").unwrap();
    assert_eq!(print(&f), "fabric v0\nregion a\n  %0 = const i1 true\n  %1 = ret %0\n");
}
