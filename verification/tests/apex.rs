use bellperson::gadgets::boolean::AllocatedBit;
use bellperson::gadgets::num::AllocatedNum as Num;
use bellperson::util_cs::test_cs::TestConstraintSystem;
use bellperson::util_cs::bench_cs::BenchCS;
use bellperson::{ConstraintSystem as Synthesis, SynthesisError};
use blstrs::Scalar as Fr;
use filecoin_hashers::poseidon::{PoseidonDomain, PoseidonFunction};
use filecoin_hashers::HashFunction;
use storage_proofs_update::system::{AllocatedNum, ConstraintSystem};
use storage_proofs_update::{apex_por, apex_root};

fn new_system() -> ConstraintSystem {
    ConstraintSystem { inner: TestConstraintSystem::new() }
}

fn num(cs: &mut ConstraintSystem, name: &str, value: Fr) -> AllocatedNum {
    AllocatedNum { inner: Num::alloc(cs.inner.namespace(|| name), || Ok(value)).unwrap() }
}

fn nums(cs: &mut ConstraintSystem, name: &str, values: &[Fr]) -> Vec<AllocatedNum> {
    values.iter().enumerate().map(|(i, v)| num(cs, &format!("{} {}", name, i), *v)).collect()
}

fn bit(cs: &mut ConstraintSystem, name: &str, value: bool) -> AllocatedBit {
    AllocatedBit::alloc(cs.inner.namespace(|| name), Some(value)).unwrap()
}

fn hash2(a: Fr, b: Fr) -> Fr {
    PoseidonFunction::hash2(&PoseidonDomain::from(a), &PoseidonDomain::from(b)).into()
}

fn native_reduction(leaves: &[Fr]) -> Fr {
    let mut row = leaves.to_vec();
    while row.len() > 1 {
        row = row.chunks(2).map(|p| hash2(p[0], p[1])).collect();
    }
    row[0]
}

#[test]
fn apex_root_is_the_native_pairwise_reduction() {
    for k in 0..5u32 {
        let size = 1usize << k;
        let values: Vec<Fr> = (0..size as u64).map(|i| Fr::from(1000 + 17 * i)).collect();
        let mut cs = new_system();
        let leaves = nums(&mut cs, "leaf", &values);
        let constraints = cs.inner.num_constraints();
        cs.inner.push_namespace(|| "apex");
        let root = apex_root(&mut cs, leaves).unwrap();
        cs.inner.pop_namespace();
        assert_eq!(root.inner.get_value(), Some(native_reduction(&values)));
        assert!(cs.inner.is_satisfied());
        if size == 1 {
            assert_eq!(cs.inner.num_constraints(), constraints);
        } else {
            assert!(cs.inner.num_constraints() > constraints);
        }
    }
}

#[test]
fn apex_root_of_two_leaves_is_their_hash() {
    let mut cs = new_system();
    let leaves = nums(&mut cs, "leaf", &[Fr::from(3u64), Fr::from(4u64)]);
    cs.inner.push_namespace(|| "apex");
    let root = apex_root(&mut cs, leaves).unwrap();
    cs.inner.pop_namespace();
    assert_eq!(root.inner.get_value(), Some(hash2(Fr::from(3u64), Fr::from(4u64))));
    assert_ne!(root.inner.get_value(), Some(hash2(Fr::from(4u64), Fr::from(3u64))));
}

#[test]
fn apex_of_four_leaves_under_one_binary_level_reproduces_the_root() {
    let values = [Fr::from(11u64), Fr::from(22u64), Fr::from(33u64), Fr::from(44u64)];
    let sibling = Fr::from(55u64);
    let apex = hash2(hash2(values[0], values[1]), hash2(values[2], values[3]));
    // The partition is the right child of the root.
    let comm_d = hash2(sibling, apex);

    let mut cs = new_system();
    let leaves = nums(&mut cs, "leaf", &values);
    let partition_bits = vec![bit(&mut cs, "partition bit", true)];
    let path = vec![vec![num(&mut cs, "sibling", sibling)]];
    let root = num(&mut cs, "comm_d", comm_d);
    cs.inner.push_namespace(|| "apex por");
    apex_por(&mut cs, leaves, partition_bits, path, root).unwrap();
    cs.inner.pop_namespace();
    assert!(cs.inner.is_satisfied());
}

#[test]
fn apex_por_with_the_other_child_is_violated() {
    let values = [Fr::from(11u64), Fr::from(22u64), Fr::from(33u64), Fr::from(44u64)];
    let sibling = Fr::from(55u64);
    let apex = hash2(hash2(values[0], values[1]), hash2(values[2], values[3]));
    let comm_d = hash2(sibling, apex);

    let mut cs = new_system();
    let leaves = nums(&mut cs, "leaf", &values);
    let partition_bits = vec![bit(&mut cs, "partition bit", false)];
    let path = vec![vec![num(&mut cs, "sibling", sibling)]];
    let root = num(&mut cs, "comm_d", comm_d);
    cs.inner.push_namespace(|| "apex por");
    apex_por(&mut cs, leaves, partition_bits, path, root).unwrap();
    cs.inner.pop_namespace();
    assert_eq!(
        cs.inner.which_is_unsatisfied(),
        Some("apex por/partition-tree por/calculated root == provided root")
    );
}

#[test]
fn apex_por_with_swapped_leaves_is_violated() {
    let values = [Fr::from(11u64), Fr::from(22u64), Fr::from(33u64), Fr::from(44u64)];
    let swapped = [values[1], values[0], values[2], values[3]];
    let sibling = Fr::from(55u64);
    let apex = hash2(hash2(values[0], values[1]), hash2(values[2], values[3]));
    let comm_d = hash2(apex, sibling);

    let mut cs = new_system();
    let leaves = nums(&mut cs, "leaf", &swapped);
    let partition_bits = vec![bit(&mut cs, "partition bit", false)];
    let path = vec![vec![num(&mut cs, "sibling", sibling)]];
    let root = num(&mut cs, "comm_d", comm_d);
    cs.inner.push_namespace(|| "apex por");
    apex_por(&mut cs, leaves, partition_bits, path, root).unwrap();
    cs.inner.pop_namespace();
    assert!(!cs.inner.is_satisfied());
}

#[test]
fn apex_of_one_leaf_without_a_path_is_the_commitment() {
    let mut cs = new_system();
    let leaves = nums(&mut cs, "leaf", &[Fr::from(8u64)]);
    let root = num(&mut cs, "comm_d", Fr::from(8u64));
    let constraints = cs.inner.num_constraints();
    cs.inner.push_namespace(|| "apex por");
    apex_por(&mut cs, leaves, vec![], vec![], root).unwrap();
    cs.inner.pop_namespace();
    assert_eq!(cs.inner.num_constraints(), constraints + 1);
    assert!(cs.inner.is_satisfied());
}

fn blank_num() -> AllocatedNum {
    let mut shape_only = BenchCS::<Fr>::new();
    let inner = Num::alloc(shape_only.namespace(|| "blank"), || Err(SynthesisError::AssignmentMissing))
        .unwrap();
    AllocatedNum { inner }
}

#[test]
fn apex_leaf_without_a_value_is_assignment_missing_and_adds_no_root_constraint() {
    let mut cs = new_system();
    let mut leaves = nums(&mut cs, "leaf", &[Fr::from(1u64), Fr::from(2u64), Fr::from(3u64)]);
    leaves.push(blank_num());
    let partition_bits = vec![bit(&mut cs, "partition bit", true)];
    let path = vec![vec![num(&mut cs, "sibling", Fr::from(5u64))]];
    let root = num(&mut cs, "comm_d", Fr::from(6u64));
    cs.inner.push_namespace(|| "apex por");
    let r = apex_por(&mut cs, leaves, partition_bits, path, root);
    cs.inner.pop_namespace();
    assert!(matches!(r, Err(SynthesisError::AssignmentMissing)));
    assert!(cs
        .inner
        .pretty_print_list()
        .iter()
        .all(|name| !name.contains("partition-tree por")));
}

#[test]
fn apex_of_one_leaf_differing_from_the_commitment_is_violated() {
    let mut cs = new_system();
    let leaves = nums(&mut cs, "leaf", &[Fr::from(5u64)]);
    let root = num(&mut cs, "comm_d", Fr::from(6u64));
    let constraints = cs.inner.num_constraints();
    let aux = cs.inner.scalar_aux().len();
    cs.inner.push_namespace(|| "apex por");
    apex_por(&mut cs, leaves, vec![], vec![], root).unwrap();
    cs.inner.pop_namespace();
    assert_eq!(cs.inner.num_constraints(), constraints + 1);
    assert_eq!(cs.inner.scalar_aux().len(), aux);
    assert_eq!(
        cs.inner.which_is_unsatisfied(),
        Some("apex por/partition-tree por/calculated root == provided root")
    );
}

#[test]
fn apex_of_one_leaf_without_a_value_under_a_level_is_assignment_missing() {
    let mut cs = new_system();
    let partition_bits = vec![bit(&mut cs, "partition bit", false)];
    let path = vec![vec![num(&mut cs, "sibling", Fr::from(5u64))]];
    let root = num(&mut cs, "comm_d", Fr::from(6u64));
    cs.inner.push_namespace(|| "apex por");
    let r = apex_por(&mut cs, vec![blank_num()], partition_bits, path, root);
    cs.inner.pop_namespace();
    assert!(matches!(r, Err(SynthesisError::AssignmentMissing)));
}
