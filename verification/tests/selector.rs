use bellperson::gadgets::boolean::AllocatedBit;
use bellperson::util_cs::bench_cs::BenchCS;
use bellperson::util_cs::test_cs::TestConstraintSystem;
use bellperson::{ConstraintSystem as Synthesis, Index, SynthesisError};
use blstrs::Scalar as Fr;
use storage_proofs_update::get_challenge_high_bits;
use storage_proofs_update::system::ConstraintSystem;

fn new_system() -> ConstraintSystem {
    ConstraintSystem { inner: TestConstraintSystem::new() }
}

fn bits(cs: &mut ConstraintSystem, name: &str, values: &[bool]) -> Vec<AllocatedBit> {
    values
        .iter()
        .enumerate()
        .map(|(i, v)| {
            AllocatedBit::alloc(cs.inner.namespace(|| format!("{} {}", name, i)), Some(*v)).unwrap()
        })
        .collect()
}

fn le_bits(value: u64, len: usize) -> Vec<bool> {
    (0..len).map(|i| (value >> i) & 1 == 1).collect()
}

fn select(challenge: u64, len: usize, selector: &[bool], hs: &[usize]) -> (Fr, ConstraintSystem) {
    let mut cs = new_system();
    let c_bits = bits(&mut cs, "c", &le_bits(challenge, len));
    let h_select = bits(&mut cs, "select", selector);
    cs.inner.push_namespace(|| "high bits");
    let r = get_challenge_high_bits(&mut cs, &c_bits, &h_select, hs).unwrap();
    cs.inner.pop_namespace();
    (r.inner.get_value().unwrap(), cs)
}

#[test]
fn one_hot_selector_picks_the_top_bits_at_each_position() {
    let challenge = 0b1011_0110_1101u64;
    let hs = [1usize, 4, 7, 12];
    for i in 0..hs.len() {
        let mut selector = vec![false; hs.len()];
        selector[i] = true;
        let (value, cs) = select(challenge, 12, &selector, &hs);
        assert_eq!(value, Fr::from(challenge >> (12 - hs[i])));
        assert!(cs.inner.is_satisfied());
    }
}

#[test]
fn selector_adds_two_variables_and_two_constraints_per_candidate() {
    let mut cs = new_system();
    let c_bits = bits(&mut cs, "c", &le_bits(0b110101, 6));
    let h_select = bits(&mut cs, "select", &[false, true, false]);
    let constraints = cs.inner.num_constraints();
    let aux = cs.inner.scalar_aux().len();

    cs.inner.push_namespace(|| "high bits");
    let r = get_challenge_high_bits(&mut cs, &c_bits, &h_select, &[2, 3, 6]).unwrap();
    cs.inner.pop_namespace();

    assert_eq!(cs.inner.num_constraints(), constraints + 7);
    let assigned = cs.inner.scalar_aux();
    assert_eq!(assigned.len(), aux + 7);
    let expected = [3u64, 0, 6, 6, 0b110101, 0, 6];
    for (i, e) in expected.iter().enumerate() {
        assert_eq!(assigned[aux + i], Fr::from(*e));
    }
    assert_eq!(r.inner.get_variable().get_unchecked(), Index::Aux(aux + 6));
    assert_eq!(r.inner.get_value(), Some(Fr::from(6u64)));
    assert!(cs.inner.is_satisfied());
}

#[test]
fn selector_with_no_bit_set_gives_zero() {
    let (value, cs) = select(0b1111, 4, &[false, false], &[2, 4]);
    assert_eq!(value, Fr::from(0u64));
    assert!(cs.inner.is_satisfied());
}

#[test]
fn selector_with_two_bits_set_gives_the_sum() {
    let (value, cs) = select(0b1101, 4, &[true, true], &[2, 4]);
    assert_eq!(value, Fr::from(3u64 + 13u64));
    assert!(cs.inner.is_satisfied());
}

#[test]
fn selecting_zero_high_bits_gives_zero() {
    let (value, cs) = select(0b1101, 4, &[true], &[0]);
    assert_eq!(value, Fr::from(0u64));
    assert!(cs.inner.is_satisfied());
}

#[test]
fn equal_counts_at_two_positions_are_accepted() {
    let (value, cs) = select(0b1001, 4, &[false, true], &[3, 3]);
    assert_eq!(value, Fr::from(4u64));
    assert!(cs.inner.is_satisfied());
}

#[test]
fn changed_selection_violates_the_sum() {
    let (_, mut cs) = select(0b1101, 4, &[false, true], &[2, 4]);
    cs.inner.set("high bits/c_high_selected/num", Fr::from(3u64));
    assert_eq!(
        cs.inner.which_is_unsatisfied(),
        Some("high bits/c_high_selected == dot(c_highs, h_select_bits)")
    );
}

#[test]
fn selector_bit_without_a_value_is_assignment_missing() {
    let mut shape_only = BenchCS::<Fr>::new();
    let blank = AllocatedBit::alloc(shape_only.namespace(|| "blank"), None).unwrap();

    let mut cs = new_system();
    let c_bits = bits(&mut cs, "c", &le_bits(0b1101, 4));
    cs.inner.push_namespace(|| "high bits");
    let r = get_challenge_high_bits(&mut cs, &c_bits, &[blank], &[2]);
    cs.inner.pop_namespace();

    assert!(matches!(r, Err(SynthesisError::AssignmentMissing)));
}

#[test]
fn packed_bit_without_a_value_is_assignment_missing() {
    let mut shape_only = BenchCS::<Fr>::new();
    let blank = AllocatedBit::alloc(shape_only.namespace(|| "blank"), None).unwrap();

    let mut cs = new_system();
    let mut c_bits = bits(&mut cs, "c", &le_bits(0b101, 3));
    c_bits.push(blank);
    let h_select = bits(&mut cs, "select", &[true]);
    cs.inner.push_namespace(|| "high bits");
    let r = get_challenge_high_bits(&mut cs, &c_bits, &h_select, &[1]);
    cs.inner.pop_namespace();

    assert!(matches!(r, Err(SynthesisError::AssignmentMissing)));
}
