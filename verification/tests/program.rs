use llvm_fabric::program::{parse, print, Program};
use llvm_fabric::text;

const TWO_FNS: &str = "fabric v1\n\
fn main\n\
region entry\n\
  %0 = param i32\n\
  %1 = const i32 2\n\
  %2 = arith.add i32 %0, %1\n\
  %3 = ret %2\n\
fn two\n\
region entry\n\
  %0 = const i32 2\n\
  %1 = ret %0\n";

#[test]
fn fn_body_errors_carry_file_line_numbers() {
    let text = "fabric v1\n\
fn main\n\
region entry\n\
  %0 = bogus\n";
    let e = parse(text).unwrap_err();
    assert_eq!(e.line, 4, "offset-adjusted: {:?}", e);
    assert!(e.message.starts_with("fn 'main': "), "{}", e.message);
}

#[test]
fn program_print_parse_print_roundtrip() {
    let p = parse(TWO_FNS).expect("parses");
    assert_eq!(p.funcs.len(), 2);
    assert_eq!(p.funcs[0].0, "main");
    assert_eq!(p.funcs[1].0, "two");
    let once = print(&p);
    assert_eq!(
        once,
        "fabric v1\nfn main\nregion entry\n  %0 = param i32\n  %1 = const i32 2\n  %2 = arith.add i32 %0, %1\n  %3 = ret %2\nfn two\nregion entry\n  %0 = const i32 2\n  %1 = ret %0\n"
    );
    let p2 = parse(&once).expect("reparse");
    assert_eq!(print(&p2), once);
}

#[test]
fn program_get_and_add_keep_declaration_order() {
    let mut p = Program::new();
    let f = text::parse("fabric v0\nregion entry\n  %0 = ret\n").expect("parses");
    let g = text::parse("fabric v0\nregion e\n  %0 = const i1 true\n  %1 = ret\n").expect("parses");
    p.add("a", f.clone());
    p.add("b", f.clone());
    p.add("a", g);
    assert_eq!(p.funcs.len(), 2);
    assert_eq!(p.funcs[0].0, "a");
    assert_eq!(p.get("a").map(|x| x.regions[0].name.clone()), Some("e".to_string()));
    assert!(p.get("zz").is_none());
}

#[test]
fn program_parse_refusals_are_named() {
    assert_eq!(parse("fabric v0\n").unwrap_err().message, "expected header 'fabric v1', got 'fabric v0'");
    assert_eq!(parse("").unwrap_err().message, "missing 'fabric v1' header");
    assert_eq!(parse("fabric  v1 ; c\n").unwrap_err().message, "program has no functions");
    let e = parse("fabric v1\nregion entry\n").unwrap_err();
    assert_eq!((e.line, e.message.as_str()), (2, "expected 'fn NAME' before 'region entry'"));
}
