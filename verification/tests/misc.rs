use llvm_fabric::bench::median_ns;
use llvm_fabric::cell::{ArithOp, CmpOp};
use llvm_fabric::fuzz::{CorpusStats, Rng};
use llvm_fabric::ga::{Coverage, GaConfig};
use llvm_fabric::id::{CellId, RegionId};
use llvm_fabric::prov::{render, ProvNode};
use llvm_fabric::semmut::{eval_dataflow, KindStat, SemKind, SemReport};
use llvm_fabric::ty::{ConstVal, Type};

fn xorshift(mut x: u64) -> u64 {
    x ^= x >> 12;
    x ^= x << 25;
    x ^= x >> 27;
    x
}

#[test]
fn rng_is_xorshift_star_and_deterministic() {
    let mut a = Rng::new(42);
    let mut b = Rng::new(42);
    let s1 = xorshift(42);
    assert_eq!(a.next_u64(), s1.wrapping_mul(0x2545F4914F6CDD1D));
    assert_eq!(a.0, s1);
    b.next_u64();
    assert_eq!(a.below(10), b.below(10));
    assert_eq!(Rng::new(0).0, 1);
}

#[test]
fn rng_below_zero_and_pick_empty_leave_the_state() {
    let mut r = Rng::new(7);
    assert_eq!(r.below(0), 0);
    assert_eq!(r.0, 7);
    let empty: [u8; 0] = [];
    assert!(r.pick(&empty).is_none());
    assert_eq!(r.0, 7);
    let xs = [10u8, 20, 30];
    let want = (xorshift(7).wrapping_mul(0x2545F4914F6CDD1D) % 3) as usize;
    assert_eq!(r.pick(&xs), Some(&xs[want]));
    let mut c = Rng::new(9);
    let want_c = xorshift(9).wrapping_mul(0x2545F4914F6CDD1D) % 100 < 50;
    assert_eq!(c.chance(50), want_c);
}

#[test]
fn median_sorts_and_picks_the_middle() {
    let mut s = [5u128, 1, 4, 2, 3];
    assert_eq!(median_ns(&mut s), 3);
    assert_eq!(s, [1, 2, 3, 4, 5]);
    let mut t = [9u128, 7];
    assert_eq!(median_ns(&mut t), 9);
}

#[test]
fn coverage_counts_set_items() {
    let mut c = Coverage::default();
    assert_eq!(c.n_items(), 0);
    c.items[0] = true;
    c.items[10] = true;
    c.items[5] = true;
    assert_eq!(c.n_items(), 3);
    let g = GaConfig::default();
    assert_eq!((g.population, g.generations, g.elite, g.tournament, g.seed), (200, 50, 20, 5, 0x6A1C0));
}

#[test]
fn sem_kinds_name_and_family() {
    assert_eq!(SemKind::ConstOffByOne.name(), "const-off-by-one");
    assert_eq!(SemKind::StageTamperControl.name(), "stage-tamper-control");
    assert!(SemKind::RetValueSwap.is_dataflow());
    assert!(!SemKind::BranchTargetSwap.is_dataflow());
}

#[test]
fn sem_report_totals_add_up_per_kind() {
    let mut r = SemReport::default();
    let mut a = KindStat::default();
    a.judged = 3;
    a.sem_wrong = 1;
    a.killed = 2;
    a.unjudgeable = 0;
    let mut b = KindStat::default();
    b.judged = 4;
    b.sem_wrong = 0;
    b.killed = 1;
    b.unjudgeable = 4;
    r.kinds.push(("const-off-by-one", a));
    r.kinds.push(("branch-target-swap", b));
    assert_eq!(r.judged_total(), 7);
    assert_eq!(r.sem_wrong_total(), 1);
    assert_eq!(r.killed_total(), 3);
    assert_eq!(r.unjudgeable_total(), 4);
}

#[test]
fn corpus_rejections_total() {
    let mut st = CorpusStats::default();
    assert_eq!(st.rejected_total(), 0);
    st.rejected.push(("V01".to_string(), 3));
    st.rejected.push(("V07".to_string(), 5));
    assert_eq!(st.rejected_total(), 8);
}

#[test]
fn provenance_tree_renders_indented() {
    let leaf1 = ProvNode { id: CellId(0), line: "%0 = param i32".into(), children: vec![] };
    let leaf2 = ProvNode { id: CellId(1), line: "%1 = const i32 42".into(), children: vec![] };
    let add = ProvNode { id: CellId(2), line: "%2 = arith.add i32 %0, %1".into(), children: vec![leaf1, leaf2] };
    let ret = ProvNode { id: CellId(3), line: "%3 = ret %2".into(), children: vec![add] };
    assert_eq!(
        render(&ret),
        "%3 = ret %2\n  %2 = arith.add i32 %0, %1\n    %0 = param i32\n    %1 = const i32 42\n"
    );
}

#[test]
fn names_parse_back() {
    for t in [Type::I1, Type::I32, Type::I64, Type::F64] {
        assert_eq!(Type::parse(t.name()), Some(t));
    }
    assert_eq!(Type::parse("i8"), None);
    for op in [ArithOp::Add, ArithOp::Sub, ArithOp::Mul, ArithOp::Div] {
        assert_eq!(ArithOp::parse(op.name()), Some(op));
    }
    assert_eq!(ArithOp::parse("arith.pow"), None);
    assert_eq!(CmpOp::Le.name(), "cmp.le");
    assert_eq!(CellId(12).as_u32(), 12);
    assert_eq!(RegionId(4).as_u32(), 4);
    assert_eq!(CellId(12).to_text(), "%12");
    assert_eq!(RegionId(4).to_text(), "#4");
}

#[test]
fn integer_constants_render_and_parse() {
    for v in [ConstVal::I1(true), ConstVal::I1(false), ConstVal::I32(-17), ConstVal::I32(i32::MIN), ConstVal::I64(9007199254740993), ConstVal::I64(i64::MIN)] {
        let s = v.render();
        assert_eq!(ConstVal::parse(v.ty(), &s), Some(v), "{}", s);
    }
    assert_eq!(ConstVal::I64(-5).render(), "-5i64");
    assert_eq!(ConstVal::parse(Type::I32, "+7"), Some(ConstVal::I32(7)));
    assert_eq!(ConstVal::parse(Type::I32, "2147483648"), None);
    assert_eq!(ConstVal::parse(Type::I64, "5"), None);
    assert_eq!(ConstVal::parse(Type::I1, "True"), None);
    assert_eq!(ConstVal::parse(Type::F64, "NaN"), None);
}

#[test]
fn toy_chains_have_the_promised_shape() {
    let f = llvm_fabric::bench::chain(3);
    let text = llvm_fabric::text::print(&f);
    assert_eq!(
        text,
        "fabric v0\nregion entry\n  %0 = param i32\n  %1 = const i32 1\n  %2 = arith.add i32 %0, %1\n  %3 = arith.add i32 %2, %1\n  %4 = arith.add i32 %3, %1\n  %5 = ret %4\n"
    );
    let g = llvm_fabric::bench::foldchain(2);
    let text = llvm_fabric::text::print(&g);
    assert_eq!(
        text,
        "fabric v0\nregion entry\n  %0 = const i32 1\n  %1 = const i32 1\n  %2 = arith.add i32 %0, %1\n  %3 = const i32 1\n  %4 = arith.add i32 %2, %3\n  %5 = ret %4\n"
    );
    let z = llvm_fabric::bench::chain(0);
    assert_eq!(llvm_fabric::text::print(&z), "fabric v0\nregion entry\n  %0 = param i32\n  %1 = const i32 1\n  %2 = ret %0\n");
}

#[test]
fn region_add_records_a_note_not_an_edit() {
    let f = llvm_fabric::bench::chain(1);
    let (g, r, rec) = llvm_fabric::region::region_add(&f, "spare");
    assert_eq!(r, llvm_fabric::id::RegionId(1));
    assert_eq!(g.regions.len(), 2);
    assert_eq!(g.regions[1].name, "spare");
    assert!(g.regions[1].cells.is_empty());
    assert_eq!(rec.pass, "region-add");
    assert!(rec.edits.is_empty());
    assert_eq!(
        rec.notes,
        vec!["region 'spare' added as region 1 \u{2014} NOT expressible in the Edit vocabulary (no RegionAdded kind); recorded as a note".to_string()]
    );
    assert_eq!(g.slab.len(), f.slab.len());
}

#[test]
fn baseline_is_smaller_but_same_order() {
    let f = llvm_fabric::bench::chain(100);
    let ours = llvm_fabric::text::print(&f).len();
    let base = llvm_fabric::bench::baseline_ssa(&f).len();
    assert!(base < ours, "baseline should be smaller ({} vs {})", base, ours);
    assert!((ours as f64) / (base as f64) < 2.5, "fabric text should be within 2.5x of baseline");
}

#[test]
fn baseline_text_of_a_diamond() {
    let text = "fabric v0\n\
region entry\n\
  %0 = param i32\n\
  %1 = const i32 42\n\
  %2 = arith.add i32 %0, %1\n\
  %3 = cmp.lt %2, %1\n\
  %5 = br %3, then, else\n\
region then\n\
  %4 = const i64 1i64\n\
  %6 = jump join\n\
region else\n\
  %7 = const i64 2i64\n\
  %8 = jump join\n\
region join\n\
  %9 = phi [then: %4] [else: %7]\n\
  %10 = ret %9\n";
    let f = llvm_fabric::text::parse(text).expect("parses");
    assert_eq!(
        llvm_fabric::bench::baseline_ssa(&f),
        "entry:\n  0 = param i32\n  1 = const i32 42\n  2 = add i32 %0, %1\n  3 = icmp slt %2, %1\n  br %3, label %then, label %else\nthen:\n  4 = const i64 1i64\n  br label %join\nelse:\n  7 = const i64 2i64\n  br label %join\njoin:\n  9 = phi i64 [ %4, %then ], [ %7, %else ]\n  ret %9\n"
    );
}

#[test]
fn diamonds_chain_through_their_joins() {
    let f = llvm_fabric::bench::diamonds(1);
    assert_eq!(
        llvm_fabric::text::print(&f),
        "fabric v0\nregion entry\n  %0 = param i32\n  %1 = const i32 0\n  %2 = cmp.lt %0, %1\n  %3 = br %2, t0, e0\nregion t0\n  %4 = const i32 1\n  %5 = arith.add i32 %0, %4\n  %6 = jump j0\nregion e0\n  %7 = const i32 2\n  %8 = arith.add i32 %0, %7\n  %9 = jump j0\nregion j0\n  %10 = phi [t0: %5] [e0: %8]\n  %11 = ret %10\n"
    );
    let g = llvm_fabric::bench::diamonds(3);
    assert_eq!(g.regions.len(), 10);
    assert_eq!(g.slab.len(), 30);
    let names: Vec<&str> = g.regions.iter().map(|r| r.name.as_str()).collect();
    assert_eq!(names, vec!["entry", "t0", "e0", "j0", "t1", "e1", "j1", "t2", "e2", "j2"]);
    assert_eq!(g.regions[3].cells, vec![llvm_fabric::id::CellId(10), llvm_fabric::id::CellId(11), llvm_fabric::id::CellId(12)]);
    assert_eq!(llvm_fabric::region::reachable_regions(&g), (0..10).collect::<Vec<u32>>());
    let z = llvm_fabric::bench::diamonds(0);
    assert_eq!(llvm_fabric::text::print(&z), "fabric v0\nregion entry\n  %0 = param i32\n  %1 = const i32 0\n");
}

#[test]
fn dense_dag_layers_read_the_layer_before() {
    let f = llvm_fabric::bench::dense_dag(40, 7);
    // width max(40 / 8, 2) = 5, depth 40 / 5 = 8: 2 params, 40 adds, a ret
    assert_eq!(f.slab.len(), 43);
    for l in 0..8u32 {
        for k in 0..5u32 {
            let id = 2 + l * 5 + k;
            let c = f.cell(llvm_fabric::id::CellId(id)).expect("present");
            assert_eq!(c.operands.len(), 2);
            for op in &c.operands {
                let (lo, hi) = if l == 0 { (0, 2) } else { (2 + (l - 1) * 5, 2 + l * 5) };
                assert!(lo <= op.0 && op.0 < hi, "cell {} reads {} outside layer {}", id, op.0, l);
            }
        }
    }
    assert_eq!(f.cell(llvm_fabric::id::CellId(42)).unwrap().operands, vec![llvm_fabric::id::CellId(41)]);
    assert!(llvm_fabric::bench::dense_dag(40, 7) == f, "same seed, same fabric");
    let small = llvm_fabric::bench::dense_dag(3, 1);
    // width 2, depth max(3 / 2, 1) = 1
    assert_eq!(small.slab.len(), 5);
}

#[test]
fn eval_dataflow_uses_checked_integer_arithmetic() {
    let text = "fabric v0\n\
region entry\n\
  %0 = param i32\n\
  %1 = const i32 -7\n\
  %2 = const i32 2\n\
  %3 = arith.div i32 %1, %2\n\
  %4 = arith.add i32 %3, %2\n\
  %5 = cmp.lt %4, %2\n\
  %6 = const i32 2147483647\n\
  %7 = arith.add i32 %6, %2\n\
  %8 = const i32 0\n\
  %9 = arith.div i32 %2, %8\n\
  %10 = arith.add i32 %0, %2\n\
  %11 = ret %4\n";
    let f = llvm_fabric::text::parse(text).expect("parses");
    assert_eq!(eval_dataflow(&f, llvm_fabric::id::CellId(3), 0), Some(ConstVal::I32(-3)));
    assert_eq!(eval_dataflow(&f, llvm_fabric::id::CellId(4), 0), Some(ConstVal::I32(-1)));
    assert_eq!(eval_dataflow(&f, llvm_fabric::id::CellId(5), 0), Some(ConstVal::I1(true)));
    assert_eq!(eval_dataflow(&f, llvm_fabric::id::CellId(7), 0), None, "overflow has no value");
    assert_eq!(eval_dataflow(&f, llvm_fabric::id::CellId(9), 0), None, "division by zero has no value");
    assert_eq!(eval_dataflow(&f, llvm_fabric::id::CellId(10), 0), None, "params have no value");
    assert_eq!(eval_dataflow(&f, llvm_fabric::id::CellId(11), 0), None, "terminators have no value");
    assert_eq!(eval_dataflow(&f, llvm_fabric::id::CellId(4), 257), None, "past the depth limit");
}

#[test]
fn tallies_keep_one_entry_per_key() {
    let mut st = CorpusStats::default();
    st.note_rejection("V06");
    st.note_rejection("V12");
    st.note_rejection("V06");
    assert_eq!(st.rejected, vec![("V06".to_string(), 2), ("V12".to_string(), 1)]);
    assert_eq!(st.rejected_total(), 3);
    let mut r = SemReport::default();
    let a = r.kind_slot("const-off-by-one");
    let b = r.kind_slot("const-off-by-one");
    assert_eq!((a, b, r.kinds.len()), (0, 0, 1));
    r.kinds[a].1.note_fired("verify");
    r.kinds[a].1.note_fired("verify");
    assert_eq!(r.kinds[a].1.fired, vec![("verify".to_string(), 2)]);
    let c = r.cost_slot("verify");
    r.judge_cost[c].1.calls += 1;
    assert_eq!(r.cost_slot("verify"), c);
    assert_eq!(r.judge_cost.len(), 1);
}
