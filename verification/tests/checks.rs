use bellperson::gadgets::num::AllocatedNum as Num;
use bellperson::util_cs::test_cs::TestConstraintSystem;
use bellperson::ConstraintSystem as Synthesis;
use blstrs::Scalar as Fr;
use storage_proofs_update::apex::is_power_of_two;
use storage_proofs_update::merkle::{path_fits, TreeShape};
use storage_proofs_update::selector::counts_fit;
use storage_proofs_update::system::{AllocatedNum, ConstraintSystem};

fn path_of(counts: &[usize]) -> Vec<Vec<AllocatedNum>> {
    let mut cs = ConstraintSystem { inner: TestConstraintSystem::new() };
    counts
        .iter()
        .enumerate()
        .map(|(level, count)| {
            (0..*count)
                .map(|i| AllocatedNum {
                    inner: Num::alloc(cs.inner.namespace(|| format!("{} {}", level, i)), || {
                        Ok(Fr::from(i as u64))
                    })
                    .unwrap(),
                })
                .collect()
        })
        .collect()
}

#[test]
fn paths_fit_their_tree_shapes() {
    let oct = TreeShape { base_arity: 8, sub_arity: 0, top_arity: 0 };
    assert!(path_fits(&oct, &path_of(&[7]), 3));
    assert!(path_fits(&oct, &path_of(&[7, 7, 7]), 9));
    assert!(path_fits(&oct, &path_of(&[]), 0));
    let composite = TreeShape { base_arity: 8, sub_arity: 4, top_arity: 2 };
    assert!(path_fits(&composite, &path_of(&[7, 7, 3, 1]), 9));
    assert!(path_fits(&composite, &path_of(&[3, 1]), 3));
    let wide = TreeShape { base_arity: 16, sub_arity: 8, top_arity: 0 };
    assert!(path_fits(&wide, &path_of(&[15, 15, 7]), 11));
    assert!(!path_fits(&wide, &path_of(&[15, 15, 7]), 10));
}

#[test]
fn paths_with_wrong_sibling_counts_do_not_fit() {
    let oct = TreeShape { base_arity: 8, sub_arity: 0, top_arity: 0 };
    assert!(!path_fits(&oct, &path_of(&[7, 6]), 6));
    assert!(!path_fits(&oct, &path_of(&[3]), 2));
    let composite = TreeShape { base_arity: 8, sub_arity: 4, top_arity: 2 };
    assert!(!path_fits(&composite, &path_of(&[7, 7, 3]), 8));
    assert!(!path_fits(&composite, &path_of(&[7, 7, 1]), 7));
    assert!(!path_fits(&composite, &path_of(&[7, 3, 1, 1]), 7));
}

#[test]
fn challenge_lengths_must_match_the_path() {
    let oct = TreeShape { base_arity: 8, sub_arity: 0, top_arity: 0 };
    assert!(!path_fits(&oct, &path_of(&[7]), 2));
    assert!(!path_fits(&oct, &path_of(&[7]), 4));
    let composite = TreeShape { base_arity: 8, sub_arity: 4, top_arity: 2 };
    assert!(!path_fits(&composite, &path_of(&[7, 7, 3, 1]), 8));
    assert!(!path_fits(&composite, &path_of(&[7, 7, 3, 1]), 10));
    assert!(!path_fits(&composite, &path_of(&[3, 1]), 2));
}

#[test]
fn sub_tree_of_the_base_arity_is_swallowed_by_the_base_levels() {
    let shape = TreeShape { base_arity: 8, sub_arity: 8, top_arity: 0 };
    assert!(shape.is_valid());
    assert!(!path_fits(&shape, &path_of(&[7, 7]), 6));
}

#[test]
fn invalid_shapes_fit_no_path() {
    let shape = TreeShape { base_arity: 8, sub_arity: 0, top_arity: 2 };
    assert!(!path_fits(&shape, &path_of(&[7, 1]), 4));
}

#[test]
fn powers_of_two_are_recognised() {
    for k in 0..20 {
        assert!(is_power_of_two(1usize << k));
    }
    for n in [0usize, 3, 5, 6, 7, 12, 24, 1000, usize::MAX] {
        assert!(!is_power_of_two(n));
    }
}

#[test]
fn counts_of_high_bits_fit_the_challenge() {
    assert!(counts_fit(12, 3, &[0, 5, 12]));
    assert!(counts_fit(300, 1, &[254]));
    assert!(!counts_fit(12, 3, &[0, 5, 13]));
    assert!(!counts_fit(12, 2, &[0, 5, 12]));
    assert!(!counts_fit(12, 0, &[]));
    assert!(!counts_fit(300, 1, &[255]));
}

#[test]
fn new_system_holds_the_constant_one_only() {
    let cs = storage_proofs_update::system::new_system();
    assert_eq!(cs.inner.num_inputs(), 1);
    assert_eq!(cs.inner.scalar_inputs(), vec![Fr::from(1u64)]);
    assert_eq!(cs.inner.scalar_aux().len(), 0);
    assert_eq!(cs.inner.num_constraints(), 0);
    assert_eq!(cs.inner.pretty_print_list(), vec!["INPUT ONE".to_string()]);
}

#[test]
fn namespaces_open_and_close_around_a_gadget() {
    let mut cs = storage_proofs_update::system::new_system();
    let old = AllocatedNum { inner: Num::alloc(cs.inner.namespace(|| "old"), || Ok(Fr::from(2u64))).unwrap() };
    let data = AllocatedNum { inner: Num::alloc(cs.inner.namespace(|| "data"), || Ok(Fr::from(3u64))).unwrap() };
    let rho = AllocatedNum { inner: Num::alloc(cs.inner.namespace(|| "rho"), || Ok(Fr::from(4u64))).unwrap() };
    storage_proofs_update::system::open_namespace(&mut cs, "first");
    let a = storage_proofs_update::label_r_new(&mut cs, &old, &data, &rho).unwrap();
    storage_proofs_update::system::close_namespace(&mut cs);
    storage_proofs_update::system::open_namespace(&mut cs, "second");
    let b = storage_proofs_update::label_r_new(&mut cs, &a, &data, &rho).unwrap();
    storage_proofs_update::system::close_namespace(&mut cs);
    assert_eq!(b.inner.get_value(), Some(Fr::from(26u64)));
    assert_eq!(cs.inner.get("second/label_r_new/num"), Fr::from(26u64));
    assert!(cs.inner.is_satisfied());
}
