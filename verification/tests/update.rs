use bellperson::gadgets::num::AllocatedNum as Num;
use bellperson::util_cs::bench_cs::BenchCS;
use bellperson::util_cs::test_cs::TestConstraintSystem;
use bellperson::{ConstraintSystem as Synthesis, SynthesisError};
use blstrs::Scalar as Fr;
use ff::Field;
use storage_proofs_update::label_r_new;
use storage_proofs_update::system::{AllocatedNum, ConstraintSystem};

fn new_system() -> ConstraintSystem {
    ConstraintSystem { inner: TestConstraintSystem::new() }
}

fn num(cs: &mut ConstraintSystem, name: &str, value: Fr) -> AllocatedNum {
    AllocatedNum { inner: Num::alloc(cs.inner.namespace(|| name), || Ok(value)).unwrap() }
}

fn num_without_value() -> AllocatedNum {
    let mut shape_only = BenchCS::<Fr>::new();
    let inner = Num::alloc(shape_only.namespace(|| "blank"), || Err(SynthesisError::AssignmentMissing))
        .unwrap();
    assert!(inner.get_value().is_none());
    AllocatedNum { inner }
}

#[test]
fn label_r_new_is_old_plus_data_times_rho() {
    let mut cs = new_system();
    let old = num(&mut cs, "old", Fr::from(7u64));
    let data = num(&mut cs, "data", Fr::from(5u64));
    let rho = num(&mut cs, "rho", Fr::from(3u64));
    let constraints = cs.inner.num_constraints();
    let aux = cs.inner.scalar_aux().len();

    cs.inner.push_namespace(|| "update");
    let new = label_r_new(&mut cs, &old, &data, &rho).unwrap();
    cs.inner.pop_namespace();

    assert_eq!(new.inner.get_value(), Some(Fr::from(22u64)));
    assert_eq!(cs.inner.num_constraints(), constraints + 2);
    let assigned = cs.inner.scalar_aux();
    assert_eq!(assigned.len(), aux + 2);
    assert_eq!(assigned[aux], Fr::from(15u64));
    assert_eq!(assigned[aux + 1], Fr::from(22u64));
    assert!(cs.inner.is_satisfied());
}

#[test]
fn label_r_new_wraps_in_the_field() {
    let mut cs = new_system();
    let minus_one = -Fr::ONE;
    let old = num(&mut cs, "old", Fr::from(10u64));
    let data = num(&mut cs, "data", minus_one);
    let rho = num(&mut cs, "rho", Fr::from(4u64));

    cs.inner.push_namespace(|| "update");
    let new = label_r_new(&mut cs, &old, &data, &rho).unwrap();
    cs.inner.pop_namespace();

    assert_eq!(new.inner.get_value(), Some(Fr::from(6u64)));
    assert!(cs.inner.is_satisfied());
}

#[test]
fn label_r_new_constraints_reject_another_label() {
    let mut cs = new_system();
    let old = num(&mut cs, "old", Fr::from(7u64));
    let data = num(&mut cs, "data", Fr::from(5u64));
    let rho = num(&mut cs, "rho", Fr::from(3u64));

    cs.inner.push_namespace(|| "update");
    label_r_new(&mut cs, &old, &data, &rho).unwrap();
    cs.inner.pop_namespace();
    assert!(cs.inner.is_satisfied());

    cs.inner.set("update/label_r_new/num", Fr::from(23u64));
    assert_eq!(
        cs.inner.which_is_unsatisfied(),
        Some("update/label_r_new == label_r_old + label_d_new * rho")
    );
    cs.inner.set("update/label_r_new/num", Fr::from(22u64));
    cs.inner.set("update/label_d_new * rho/product num", Fr::from(16u64));
    assert_eq!(
        cs.inner.which_is_unsatisfied(),
        Some("update/label_d_new * rho/multiplication constraint")
    );
}

#[test]
fn label_r_new_without_old_label_is_assignment_missing() {
    let mut cs = new_system();
    let old = num_without_value();
    let data = num(&mut cs, "data", Fr::from(5u64));
    let rho = num(&mut cs, "rho", Fr::from(3u64));

    cs.inner.push_namespace(|| "update");
    let r = label_r_new(&mut cs, &old, &data, &rho);
    cs.inner.pop_namespace();

    assert!(matches!(r, Err(SynthesisError::AssignmentMissing)));
}

#[test]
fn label_r_new_without_scalar_is_assignment_missing() {
    let mut cs = new_system();
    let old = num(&mut cs, "old", Fr::from(7u64));
    let data = num(&mut cs, "data", Fr::from(5u64));
    let rho = num_without_value();
    let constraints = cs.inner.num_constraints();

    cs.inner.push_namespace(|| "update");
    let r = label_r_new(&mut cs, &old, &data, &rho);
    cs.inner.pop_namespace();

    assert!(matches!(r, Err(SynthesisError::AssignmentMissing)));
    assert_eq!(cs.inner.num_constraints(), constraints);
}
