use llvm_fabric::cell::CellKind;
use llvm_fabric::fabric::Fabric;
use llvm_fabric::fuzz::{gen_fabric, mutate, Rng};
use llvm_fabric::ty::ConstVal;

fn present(f: &Fabric) -> usize {
    f.slab.iter().filter(|c| c.is_some()).count()
}

#[test]
fn generated_fabrics_have_named_regions_each_ending_in_a_terminator() {
    for seed in 1..200u64 {
        let mut rng = Rng::new(seed);
        let f = gen_fabric(&mut rng);
        assert!(!f.regions.is_empty() && f.regions.len() <= 6, "seed {}", seed);
        for (i, r) in f.regions.iter().enumerate() {
            assert_eq!(r.name, format!("r{}", i));
            let last = *r.cells.last().expect("every region has cells");
            assert!(f.cell(last).unwrap().is_terminator(), "seed {} region {}", seed, i);
            let terms = r.cells.iter().filter(|&&id| f.cell(id).unwrap().is_terminator()).count();
            assert_eq!(terms, 1);
        }
        for c in f.slab.iter().flatten() {
            for op in &c.operands {
                assert!((op.0 as usize) < f.slab.len());
            }
            assert!(!matches!(c.kind, CellKind::Phi { .. }), "the generator makes no phi");
        }
    }
}

#[test]
fn generation_is_deterministic_in_the_seed() {
    for seed in [1u64, 7, 0xFAB1C, 12345] {
        let a = gen_fabric(&mut Rng::new(seed));
        let b = gen_fabric(&mut Rng::new(seed));
        assert!(a.same_content_as(&b));
    }
}

#[test]
fn generated_float_constants_are_exact_eighths() {
    let mut floats = 0;
    for seed in 1..400u64 {
        let f = gen_fabric(&mut Rng::new(seed));
        for c in f.slab.iter().flatten() {
            if let CellKind::Const { val: ConstVal::F64(bits), .. } = c.kind {
                let x = f64::from_bits(bits) * 8.0;
                assert_eq!(x, x.trunc(), "bits {:#x}", bits);
                assert!((-100.0..=392.0).contains(&x), "value {} out of the generator's ranges", x / 8.0);
                floats += 1;
            }
        }
    }
    assert!(floats > 0, "some float constant was drawn");
}

#[test]
fn a_mutation_changes_at_most_one_cell_or_one_region_list() {
    for seed in 1..300u64 {
        let f = gen_fabric(&mut Rng::new(seed));
        let mut rng = Rng::new(seed ^ 0xDEAD);
        let g = mutate(&f, &mut rng);
        let grown = g.slab.len() - f.slab.len();
        assert!(grown <= 1);
        let changed_cells = (0..f.slab.len()).filter(|&i| f.slab[i] != g.slab[i]).count();
        let changed_regions = (0..f.regions.len()).filter(|&i| f.regions[i] != g.regions[i]).count();
        assert_eq!(g.regions.len(), f.regions.len());
        assert!(changed_cells <= 1 && changed_regions <= 1, "seed {}", seed);
        assert!(present(&g) + 1 >= present(&f));
        let h = mutate(&f, &mut Rng::new(seed ^ 0xDEAD));
        assert!(g.same_content_as(&h), "mutation is deterministic in the seed");
    }
}

#[test]
fn a_mutation_of_an_empty_fabric_is_a_copy() {
    let f = Fabric::empty();
    let g = mutate(&f, &mut Rng::new(3));
    assert!(g.same_content_as(&f));
}

#[test]
fn generator_is_deterministic() {
    let a = gen_fabric(&mut Rng::new(12345));
    let b = gen_fabric(&mut Rng::new(12345));
    assert_eq!(a, b, "same seed must produce the identical fabric");
}
