use bellperson::gadgets::boolean::AllocatedBit;
use bellperson::gadgets::num::AllocatedNum as Num;
use bellperson::util_cs::test_cs::TestConstraintSystem;
use bellperson::util_cs::bench_cs::BenchCS;
use bellperson::{ConstraintSystem as Synthesis, SynthesisError};
use blstrs::Scalar as Fr;
use filecoin_hashers::poseidon::{PoseidonDomain, PoseidonFunction};
use merkletree::hash::Algorithm;
use storage_proofs_update::merkle::{por_no_challenge_input, TreeShape};
use storage_proofs_update::system::{AllocatedNum, ConstraintSystem};

fn new_system() -> ConstraintSystem {
    ConstraintSystem { inner: TestConstraintSystem::new() }
}

fn num(cs: &mut ConstraintSystem, name: &str, value: Fr) -> AllocatedNum {
    AllocatedNum { inner: Num::alloc(cs.inner.namespace(|| name), || Ok(value)).unwrap() }
}

fn bits(cs: &mut ConstraintSystem, name: &str, index: usize, len: usize) -> Vec<AllocatedBit> {
    (0..len)
        .map(|i| {
            AllocatedBit::alloc(cs.inner.namespace(|| format!("{} {}", name, i)), Some((index >> i) & 1 == 1))
                .unwrap()
        })
        .collect()
}

fn native_hash(parts: &[Fr]) -> Fr {
    let parts: Vec<PoseidonDomain> = parts.iter().map(|fr| PoseidonDomain::from(*fr)).collect();
    PoseidonFunction::default().multi_node(&parts, 0).into()
}

fn siblings(cs: &mut ConstraintSystem, name: &str, values: &[Fr]) -> Vec<AllocatedNum> {
    values.iter().enumerate().map(|(i, v)| num(cs, &format!("{} {}", name, i), *v)).collect()
}

#[test]
fn oct_tree_one_level_valid_path_is_satisfied() {
    let mut cs = new_system();
    let leaf_value = Fr::from(1000u64);
    let sibling_values: Vec<Fr> = (1..8u64).map(Fr::from).collect();
    let index = 5usize;
    let mut preimage = sibling_values.clone();
    preimage.insert(index, leaf_value);
    let root_value = native_hash(&preimage);

    let c_bits = bits(&mut cs, "c", index, 3);
    let leaf = num(&mut cs, "leaf", leaf_value);
    let path = vec![siblings(&mut cs, "sibling", &sibling_values)];
    let root = num(&mut cs, "root", root_value);
    let before = cs.inner.num_constraints();

    cs.inner.push_namespace(|| "por");
    let shape = TreeShape { base_arity: 8, sub_arity: 0, top_arity: 0 };
    assert!(shape.is_valid());
    por_no_challenge_input(&mut cs, shape, c_bits, leaf, path, root).unwrap();
    cs.inner.pop_namespace();

    assert!(cs.inner.num_constraints() > before);
    assert!(cs.inner.is_satisfied());
}

#[test]
fn oct_tree_one_level_flipped_sibling_violates_root_equality() {
    let mut cs = new_system();
    let leaf_value = Fr::from(1000u64);
    let sibling_values: Vec<Fr> = (1..8u64).map(Fr::from).collect();
    let index = 5usize;
    let mut preimage = sibling_values.clone();
    preimage.insert(index, leaf_value);
    let root_value = native_hash(&preimage);

    let mut flipped = sibling_values.clone();
    flipped[2] = Fr::from(77u64);

    let c_bits = bits(&mut cs, "c", index, 3);
    let leaf = num(&mut cs, "leaf", leaf_value);
    let path = vec![siblings(&mut cs, "sibling", &flipped)];
    let root = num(&mut cs, "root", root_value);

    cs.inner.push_namespace(|| "por");
    let shape = TreeShape { base_arity: 8, sub_arity: 0, top_arity: 0 };
    por_no_challenge_input(&mut cs, shape, c_bits, leaf, path, root).unwrap();
    cs.inner.pop_namespace();

    assert!(!cs.inner.is_satisfied());
    assert_eq!(cs.inner.which_is_unsatisfied(), Some("por/calculated root == provided root"));
}

fn build_and_prove(
    shape: TreeShape,
    arities: &[usize],
    index: usize,
    bit_lens: &[usize],
    mutate: usize,
) -> ConstraintSystem {
    // Walk up from the leaf: level `l` has `arities[l] - 1` siblings, and the
    // node's position there is the next `bit_lens[l]` bits of the index.
    let mut cs = new_system();
    let leaf_value = Fr::from(31337u64);
    let mut cur = leaf_value;
    let mut rest = index;
    let mut total_bits = 0;
    let mut path_values: Vec<Vec<Fr>> = Vec::new();
    for (level, arity) in arities.iter().enumerate() {
        let position = rest & ((1 << bit_lens[level]) - 1);
        rest >>= bit_lens[level];
        total_bits += bit_lens[level];
        let group: Vec<Fr> =
            (0..arity - 1).map(|i| Fr::from((100 * (level + 1) + i) as u64)).collect();
        let mut preimage = group.clone();
        preimage.insert(position, cur);
        cur = native_hash(&preimage);
        path_values.push(group);
    }
    let mut root_value = cur;
    let mut leaf_value = leaf_value;
    let mut bit_index = index;
    match mutate {
        1 => path_values[arities.len() - 1][0] += Fr::from(1u64),
        2 => leaf_value += Fr::from(1u64),
        3 => root_value += Fr::from(1u64),
        4 => bit_index ^= 1 << (total_bits - 1),
        _ => {}
    }
    let c_bits = bits(&mut cs, "c", bit_index, total_bits);
    let leaf = num(&mut cs, "leaf", leaf_value);
    let path: Vec<Vec<AllocatedNum>> = path_values
        .iter()
        .enumerate()
        .map(|(level, group)| siblings(&mut cs, &format!("level {} sibling", level), group))
        .collect();
    let root = num(&mut cs, "root", root_value);
    cs.inner.push_namespace(|| "por");
    por_no_challenge_input(&mut cs, shape, c_bits, leaf, path, root).unwrap();
    cs.inner.pop_namespace();
    cs
}

#[test]
fn composite_tree_path_is_satisfied_and_each_mutation_is_caught() {
    let shape = TreeShape { base_arity: 8, sub_arity: 4, top_arity: 2 };
    assert!(shape.is_valid());
    let arities = [8, 8, 4, 2];
    let bit_lens = [3, 3, 2, 1];
    for index in [0usize, 0b1_10_101_011, 0b1_11_111_111] {
        let cs = build_and_prove(shape, &arities, index, &bit_lens, 0);
        assert!(cs.inner.is_satisfied());
        for mutation in 1..=4 {
            let cs = build_and_prove(shape, &arities, index, &bit_lens, mutation);
            assert_eq!(
                cs.inner.which_is_unsatisfied(),
                Some("por/calculated root == provided root")
            );
        }
    }
}

#[test]
fn binary_tree_of_three_levels_is_satisfied() {
    let shape = TreeShape { base_arity: 2, sub_arity: 0, top_arity: 0 };
    for index in 0..8usize {
        let cs = build_and_prove(shape, &[2, 2, 2], index, &[1, 1, 1], 0);
        assert!(cs.inner.is_satisfied());
    }
}

#[test]
fn quad_tree_with_sub_tree_level_is_satisfied() {
    let shape = TreeShape { base_arity: 4, sub_arity: 2, top_arity: 0 };
    let cs = build_and_prove(shape, &[4, 4, 2], 0b1_01_10, &[2, 2, 1], 0);
    assert!(cs.inner.is_satisfied());
    let cs = build_and_prove(shape, &[4, 4, 2], 0b1_01_10, &[2, 2, 1], 4);
    assert!(!cs.inner.is_satisfied());
}

#[test]
fn path_without_levels_ties_the_leaf_to_the_root() {
    let mut cs = new_system();
    let leaf = num(&mut cs, "leaf", Fr::from(5u64));
    let root = num(&mut cs, "root", Fr::from(5u64));
    let constraints = cs.inner.num_constraints();
    cs.inner.push_namespace(|| "por");
    let shape = TreeShape { base_arity: 2, sub_arity: 0, top_arity: 0 };
    por_no_challenge_input(&mut cs, shape, vec![], leaf, vec![], root).unwrap();
    cs.inner.pop_namespace();
    assert_eq!(cs.inner.num_constraints(), constraints + 1);
    assert!(cs.inner.is_satisfied());
}

#[test]
fn tree_shapes_are_valid_with_supported_arities_only() {
    assert!(TreeShape { base_arity: 2, sub_arity: 0, top_arity: 0 }.is_valid());
    assert!(TreeShape { base_arity: 8, sub_arity: 8, top_arity: 2 }.is_valid());
    assert!(TreeShape { base_arity: 4, sub_arity: 2, top_arity: 0 }.is_valid());
    assert!(!TreeShape { base_arity: 0, sub_arity: 0, top_arity: 0 }.is_valid());
    assert!(!TreeShape { base_arity: 8, sub_arity: 0, top_arity: 2 }.is_valid());
    assert!(!TreeShape { base_arity: 3, sub_arity: 0, top_arity: 0 }.is_valid());
    assert!(TreeShape { base_arity: 8, sub_arity: 16, top_arity: 0 }.is_valid());
    assert!(TreeShape { base_arity: 16, sub_arity: 0, top_arity: 0 }.is_valid());
    assert!(!TreeShape { base_arity: 8, sub_arity: 32, top_arity: 0 }.is_valid());
    assert!(!TreeShape { base_arity: 1, sub_arity: 0, top_arity: 0 }.is_valid());
}

#[test]
fn sixteen_ary_levels_are_hashed() {
    let shape = TreeShape { base_arity: 16, sub_arity: 0, top_arity: 0 };
    for index in [0usize, 0b1010_0111, 0b1111_1111] {
        let cs = build_and_prove(shape, &[16, 16], index, &[4, 4], 0);
        assert!(cs.inner.is_satisfied());
        let cs = build_and_prove(shape, &[16, 16], index, &[4, 4], 1);
        assert_eq!(cs.inner.which_is_unsatisfied(), Some("por/calculated root == provided root"));
    }
    let composite = TreeShape { base_arity: 2, sub_arity: 16, top_arity: 4 };
    let cs = build_and_prove(composite, &[2, 16, 4], 0b10_1001_1, &[1, 4, 2], 0);
    assert!(cs.inner.is_satisfied());
}

fn blank_num() -> AllocatedNum {
    let mut shape_only = BenchCS::<Fr>::new();
    let inner = Num::alloc(shape_only.namespace(|| "blank"), || Err(SynthesisError::AssignmentMissing))
        .unwrap();
    AllocatedNum { inner }
}

#[test]
fn sibling_without_a_value_is_assignment_missing() {
    let mut cs = new_system();
    let c_bits = bits(&mut cs, "c", 1, 2);
    let leaf = num(&mut cs, "leaf", Fr::from(1u64));
    let first = vec![num(&mut cs, "sibling", Fr::from(2u64))];
    let second = vec![blank_num()];
    let root = num(&mut cs, "root", Fr::from(3u64));
    cs.inner.push_namespace(|| "por");
    let shape = TreeShape { base_arity: 2, sub_arity: 0, top_arity: 0 };
    let r = por_no_challenge_input(&mut cs, shape, c_bits, leaf, vec![first, second], root);
    cs.inner.pop_namespace();
    assert!(matches!(r, Err(SynthesisError::AssignmentMissing)));
}

#[test]
fn leaf_without_a_value_is_assignment_missing_where_it_is_hashed() {
    let mut cs = new_system();
    let c_bits = bits(&mut cs, "c", 2, 2);
    let path = vec![siblings(&mut cs, "sibling", &[Fr::from(2u64), Fr::from(3u64), Fr::from(4u64)])];
    let root = num(&mut cs, "root", Fr::from(3u64));
    cs.inner.push_namespace(|| "por");
    let shape = TreeShape { base_arity: 4, sub_arity: 0, top_arity: 0 };
    let r = por_no_challenge_input(&mut cs, shape, c_bits, blank_num(), path, root);
    cs.inner.pop_namespace();
    assert!(matches!(r, Err(SynthesisError::AssignmentMissing)));
}

#[test]
fn leaf_without_a_value_and_without_levels_is_accepted() {
    let mut cs = new_system();
    let root = num(&mut cs, "root", Fr::from(3u64));
    cs.inner.push_namespace(|| "por");
    let shape = TreeShape { base_arity: 4, sub_arity: 0, top_arity: 0 };
    let r = por_no_challenge_input(&mut cs, shape, vec![], blank_num(), vec![], root);
    cs.inner.pop_namespace();
    assert!(r.is_ok());
}
