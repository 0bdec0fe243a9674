use llvm_fabric::cell::{Cell, CellKind};
use llvm_fabric::fabric::Fabric;
use llvm_fabric::id::CellId;
use llvm_fabric::sign::{fabric_sig, fnv1a64, TickSig};
use llvm_fabric::ty::{ConstVal, Type};

fn one(i: i32) -> Fabric {
    let mut f = Fabric::empty();
    let e = f.add_region("entry");
    f.add_cell(e, Cell::new(e, CellKind::Const { ty: Type::I32, val: ConstVal::I32(i) }));
    f.add_cell(e, Cell::new(e, CellKind::Ret));
    f
}

#[test]
fn signature_observes_canonical_text() {
    let a = one(1);
    let b = one(1);
    let c = one(2);
    assert_eq!(fabric_sig(&a), fabric_sig(&b), "equal prints => equal sigs");
    assert_ne!(fabric_sig(&a), fabric_sig(&c), "different consts => different prints => different sigs");
}

#[test]
fn fnv_is_deterministic_and_spreads() {
    let x = fnv1a64(b"quilt");
    assert_eq!(x, fnv1a64(b"quilt"));
    assert_ne!(x, fnv1a64(b"quilt "));
    assert_ne!(x, 0);
}

#[test]
fn chain_step_binds_the_past() {
    let s = 12345u64;
    let c1 = TickSig::chain_step(None, 0, "a", s);
    let c2 = TickSig::chain_step(Some(c1), 1, "a", s);
    // same tick content but different predecessor chain => different chain
    let c0_alt = TickSig::chain_step(None, 0, "z", s);
    let c2_alt = TickSig::chain_step(Some(c0_alt), 1, "a", s);
    assert_ne!(c2, c2_alt);
    let _ = CellId(0);
}

#[test]
fn fnv_known_values() {
    assert_eq!(fnv1a64(b""), 0xcbf29ce484222325);
    assert_eq!(fnv1a64(b"a"), 0xaf63dc4c8601ec8c);
    assert_eq!(fnv1a64(b"foobar"), 0x85944171f73967e8);
}

#[test]
fn chain_step_hashes_le_bytes_pass_and_bar() {
    let mut bytes: Vec<u8> = vec![];
    bytes.extend_from_slice(&7u64.to_le_bytes());
    bytes.extend_from_slice(&2u64.to_le_bytes());
    bytes.extend_from_slice(b"dce");
    bytes.extend_from_slice(b"|");
    bytes.extend_from_slice(&99u64.to_le_bytes());
    assert_eq!(TickSig::chain_step(Some(7), 2, "dce", 99), fnv1a64(&bytes));
    let mut no_prev: Vec<u8> = vec![];
    no_prev.extend_from_slice(&2u64.to_le_bytes());
    no_prev.extend_from_slice(b"dce|");
    no_prev.extend_from_slice(&99u64.to_le_bytes());
    assert_eq!(TickSig::chain_step(None, 2, "dce", 99), fnv1a64(&no_prev));
}
