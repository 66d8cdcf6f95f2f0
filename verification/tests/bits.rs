use bellperson::gadgets::num::AllocatedNum as Num;
use bellperson::util_cs::bench_cs::BenchCS;
use bellperson::util_cs::test_cs::TestConstraintSystem;
use bellperson::{ConstraintSystem as Synthesis, Index, SynthesisError};
use blstrs::Scalar as Fr;
use ff::{Field, PrimeField};
use storage_proofs_update::allocated_num_to_allocated_bits;
use storage_proofs_update::field::{CAPACITY, NUM_BITS};
use storage_proofs_update::system::{AllocatedNum, ConstraintSystem};

fn new_system() -> ConstraintSystem {
    ConstraintSystem { inner: TestConstraintSystem::new() }
}

fn num(cs: &mut ConstraintSystem, name: &str, value: Fr) -> AllocatedNum {
    AllocatedNum { inner: Num::alloc(cs.inner.namespace(|| name), || Ok(value)).unwrap() }
}

fn recompose(bits: &[bool]) -> Fr {
    let mut sum = Fr::ZERO;
    let mut weight = Fr::ONE;
    for bit in bits {
        if *bit {
            sum += weight;
        }
        weight = weight.double();
    }
    sum
}

fn decompose_and_check(value: Fr) -> Vec<bool> {
    let mut cs = new_system();
    let n = num(&mut cs, "n", value);
    let constraints = cs.inner.num_constraints();
    let aux = cs.inner.scalar_aux().len();

    cs.inner.push_namespace(|| "decompose");
    let bits = allocated_num_to_allocated_bits(&mut cs, &n).unwrap();
    cs.inner.pop_namespace();

    assert_eq!(bits.len(), 255);
    assert_eq!(cs.inner.num_constraints(), constraints + 256);
    let assigned = cs.inner.scalar_aux();
    assert_eq!(assigned.len(), aux + 255);
    for (i, bit) in bits.iter().enumerate() {
        let expected = if bit.get_value().unwrap() { Fr::ONE } else { Fr::ZERO };
        assert_eq!(assigned[aux + i], expected);
        assert_eq!(bit.get_variable().get_unchecked(), Index::Aux(aux + i));
    }
    assert!(cs.inner.is_satisfied());
    bits.iter().map(|b| b.get_value().unwrap()).collect()
}

#[test]
fn field_constants_are_those_of_the_scalar_field() {
    assert_eq!(NUM_BITS, Fr::NUM_BITS as usize);
    assert_eq!(CAPACITY, Fr::CAPACITY as usize);
}

#[test]
fn bits_of_a_small_number_are_little_endian() {
    let bits = decompose_and_check(Fr::from(6u64));
    assert_eq!(&bits[..4], &[false, true, true, false]);
    assert!(bits[4..].iter().all(|b| !b));
}

#[test]
fn bits_recompose_to_the_number() {
    for value in [
        Fr::ZERO,
        Fr::ONE,
        Fr::from(u64::MAX),
        -Fr::ONE,
        Fr::from(0x1234_5678_9abc_def0u64) * Fr::from(u64::MAX) * Fr::from(u64::MAX),
    ] {
        let bits = decompose_and_check(value);
        assert_eq!(recompose(&bits), value);
    }
}

#[test]
fn bits_of_a_weight_above_sixty_four_recompose() {
    let value = Fr::from(2u64).pow_vartime([200u64]);
    let bits = decompose_and_check(value);
    for (i, bit) in bits.iter().enumerate() {
        assert_eq!(*bit, i == 200);
    }
}

#[test]
fn changed_bit_violates_the_decomposition() {
    let mut cs = new_system();
    let n = num(&mut cs, "n", Fr::from(5u64));
    cs.inner.push_namespace(|| "decompose");
    allocated_num_to_allocated_bits(&mut cs, &n).unwrap();
    cs.inner.pop_namespace();
    assert!(cs.inner.is_satisfied());

    cs.inner.set("decompose/bits/bit 1/boolean", Fr::ONE);
    assert_eq!(cs.inner.which_is_unsatisfied(), Some("decompose/binary decomp"));
    cs.inner.set("decompose/bits/bit 1/boolean", Fr::from(2u64));
    assert_eq!(
        cs.inner.which_is_unsatisfied(),
        Some("decompose/bits/bit 1/boolean constraint")
    );
}

#[test]
fn decomposing_without_a_value_is_assignment_missing() {
    let mut shape_only = BenchCS::<Fr>::new();
    let inner = Num::alloc(shape_only.namespace(|| "blank"), || Err(SynthesisError::AssignmentMissing))
        .unwrap();
    let blank = AllocatedNum { inner };

    let mut cs = new_system();
    let constraints = cs.inner.num_constraints();
    cs.inner.push_namespace(|| "decompose");
    let r = allocated_num_to_allocated_bits(&mut cs, &blank);
    cs.inner.pop_namespace();

    assert!(matches!(r, Err(SynthesisError::AssignmentMissing)));
    assert_eq!(cs.inner.num_constraints(), constraints);
    assert_eq!(cs.inner.scalar_aux().len(), 0);
}
