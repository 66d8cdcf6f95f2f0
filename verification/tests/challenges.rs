use bellperson::gadgets::boolean::AllocatedBit;
use bellperson::gadgets::num::AllocatedNum as Num;
use bellperson::util_cs::bench_cs::BenchCS;
use bellperson::util_cs::test_cs::TestConstraintSystem;
use bellperson::{ConstraintSystem as Synthesis, SynthesisError};
use blstrs::Scalar as Fr;
use ff::PrimeFieldBits;
use filecoin_hashers::poseidon::{PoseidonDomain, PoseidonFunction};
use filecoin_hashers::HashFunction;
use storage_proofs_update::gen_challenge_bits;
use storage_proofs_update::system::{AllocatedNum, ConstraintSystem};

fn new_system() -> ConstraintSystem {
    ConstraintSystem { inner: TestConstraintSystem::new() }
}

fn num(cs: &mut ConstraintSystem, name: &str, value: Fr) -> AllocatedNum {
    AllocatedNum { inner: Num::alloc(cs.inner.namespace(|| name), || Ok(value)).unwrap() }
}

fn native_digest_bits(commitment: Fr, index: u64) -> Vec<bool> {
    let digest: Fr =
        PoseidonFunction::hash2(&PoseidonDomain::from(commitment), &PoseidonDomain::from(Fr::from(index)))
            .into();
    digest.to_le_bits().into_iter().take(255).collect()
}

fn values(groups: &[Vec<AllocatedBit>]) -> Vec<Vec<bool>> {
    groups.iter().map(|g| g.iter().map(|b| b.get_value().unwrap()).collect()).collect()
}

fn generate(commitment: Fr, partition: u64, challenges: usize, bits_per_challenge: usize) -> Vec<Vec<bool>> {
    let mut cs = new_system();
    let comm = num(&mut cs, "comm", commitment);
    let k = num(&mut cs, "partition", Fr::from(partition));
    cs.inner.push_namespace(|| "challenges");
    let groups = gen_challenge_bits(&mut cs, &comm, &k, challenges, bits_per_challenge).unwrap();
    cs.inner.pop_namespace();
    assert!(cs.inner.is_satisfied());
    values(&groups)
}

#[test]
fn five_challenges_of_ten_bits_come_from_one_digest() {
    let commitment = Fr::from(123456789u64);
    let mut cs = new_system();
    let comm = num(&mut cs, "comm", commitment);
    let k = num(&mut cs, "partition", Fr::from(3u64));
    cs.inner.push_namespace(|| "challenges");
    let groups = gen_challenge_bits(&mut cs, &comm, &k, 5, 10).unwrap();
    cs.inner.pop_namespace();

    assert_eq!(groups.len(), 5);
    assert!(groups.iter().all(|g| g.len() == 10));
    assert!(cs.inner.is_satisfied());
    // One digest: its index is partition * 1 + 0.
    assert_eq!(cs.inner.get("challenges/digest 0/index/num"), Fr::from(3u64));
    let digest = native_digest_bits(commitment, 3);
    let got = values(&groups);
    for (g, group) in got.iter().enumerate() {
        assert_eq!(&group[..], &digest[g * 10..(g + 1) * 10]);
    }
}

#[test]
fn thirty_challenges_of_ten_bits_take_two_digests() {
    let commitment = Fr::from(42u64);
    let got = generate(commitment, 7, 30, 10);
    assert_eq!(got.len(), 30);
    // Twenty-five challenges per digest, two digests per partition.
    let first = native_digest_bits(commitment, 7 * 2);
    let second = native_digest_bits(commitment, 7 * 2 + 1);
    for (g, group) in got.iter().enumerate() {
        let (digest, chunk) = if g < 25 { (&first, g) } else { (&second, g - 25) };
        assert_eq!(&group[..], &digest[chunk * 10..(chunk + 1) * 10]);
    }
}

#[test]
fn challenges_that_fill_their_digests_exactly() {
    let commitment = Fr::from(9u64);
    let got = generate(commitment, 1, 4, 127);
    assert_eq!(got.len(), 4);
    assert!(got.iter().all(|g| g.len() == 127));
    let first = native_digest_bits(commitment, 2);
    let second = native_digest_bits(commitment, 3);
    assert_eq!(&got[0][..], &first[..127]);
    assert_eq!(&got[1][..], &first[127..254]);
    assert_eq!(&got[2][..], &second[..127]);
    assert_eq!(&got[3][..], &second[127..254]);
}

#[test]
fn one_challenge_of_the_whole_capacity() {
    let commitment = Fr::from(5u64);
    let got = generate(commitment, 0, 2, 254);
    let first = native_digest_bits(commitment, 0);
    let second = native_digest_bits(commitment, 1);
    assert_eq!(&got[0][..], &first[..254]);
    assert_eq!(&got[1][..], &second[..254]);
}

#[test]
fn derivation_is_repeatable_and_depends_on_the_partition() {
    let commitment = Fr::from(77u64);
    let a = generate(commitment, 4, 12, 20);
    let b = generate(commitment, 4, 12, 20);
    let c = generate(commitment, 5, 12, 20);
    assert_eq!(a, b);
    assert_ne!(a, c);
    // Twelve challenges per digest: partition 5 derives from the digest index 5.
    assert_eq!(&c[0][..], &native_digest_bits(commitment, 5)[..20]);
}

#[test]
fn digest_index_constraint_binds_the_index() {
    let mut cs = new_system();
    let comm = num(&mut cs, "comm", Fr::from(1u64));
    let k = num(&mut cs, "partition", Fr::from(6u64));
    cs.inner.push_namespace(|| "challenges");
    gen_challenge_bits(&mut cs, &comm, &k, 30, 10).unwrap();
    cs.inner.pop_namespace();
    assert_eq!(cs.inner.get("challenges/digest 1/index/num"), Fr::from(13u64));

    cs.inner.set("challenges/digest 1/index/num", Fr::from(14u64));
    assert_eq!(
        cs.inner.which_is_unsatisfied(),
        Some("challenges/digest 1/index == partition * digests + j")
    );
}

#[test]
fn no_challenges_leave_the_system_unchanged() {
    let mut cs = new_system();
    let comm = num(&mut cs, "comm", Fr::from(1u64));
    let k = num(&mut cs, "partition", Fr::from(2u64));
    let constraints = cs.inner.num_constraints();
    let aux = cs.inner.scalar_aux().len();
    cs.inner.push_namespace(|| "challenges");
    let groups = gen_challenge_bits(&mut cs, &comm, &k, 0, 10).unwrap();
    cs.inner.pop_namespace();
    assert!(groups.is_empty());
    assert_eq!(cs.inner.num_constraints(), constraints);
    assert_eq!(cs.inner.scalar_aux().len(), aux);
}

#[test]
fn challenges_without_a_partition_value_are_assignment_missing() {
    let mut shape_only = BenchCS::<Fr>::new();
    let inner = Num::alloc(shape_only.namespace(|| "blank"), || Err(SynthesisError::AssignmentMissing))
        .unwrap();
    let blank = AllocatedNum { inner };

    let mut cs = new_system();
    let comm = num(&mut cs, "comm", Fr::from(1u64));
    cs.inner.push_namespace(|| "challenges");
    let r = gen_challenge_bits(&mut cs, &comm, &blank, 5, 10);
    cs.inner.pop_namespace();
    assert!(matches!(r, Err(SynthesisError::AssignmentMissing)));
}

#[test]
fn challenges_without_a_commitment_value_are_assignment_missing() {
    let mut shape_only = BenchCS::<Fr>::new();
    let inner = Num::alloc(shape_only.namespace(|| "blank"), || Err(SynthesisError::AssignmentMissing))
        .unwrap();
    let blank = AllocatedNum { inner };

    let mut cs = new_system();
    let k = num(&mut cs, "partition", Fr::from(1u64));
    cs.inner.push_namespace(|| "challenges");
    let r = gen_challenge_bits(&mut cs, &blank, &k, 5, 10);
    cs.inner.pop_namespace();
    assert!(matches!(r, Err(SynthesisError::AssignmentMissing)));
}
