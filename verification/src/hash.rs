//! The hash gadgets, which are `filecoin_hashers`' Poseidon circuits.

use crate::labels::label_ok;
use crate::system::{
    all_some, assigned, grows_in_child, is_assignment_missing, name_free, num_value, num_values,
    num_var, unwrapped, AllocatedNum, ConstraintSystem,
};
use bellperson::{ConstraintSystem as Synthesis, SynthesisError};
use filecoin_hashers::poseidon::PoseidonFunction;
use filecoin_hashers::HashFunction;
use generic_array::typenum::{U16, U2, U4, U8};
use vstd::prelude::*;

verus! {

/// The Poseidon hash of two field elements, with Filecoin's constants.
pub uninterp spec fn poseidon(preimage: Seq<nat>) -> nat;

/// The hash of a level of a tree: of the height that the level is hashed at,
/// and of the two, four, eight or sixteen field elements of the level.
pub uninterp spec fn poseidon_level(height: nat, preimage: Seq<nat>) -> nat;

/// The preimage of two values.
pub open spec fn pair(a: nat, b: nat) -> Seq<nat> {
    seq![a, b]
}

/// The hash of two numbers as a new number, by `filecoin_hashers`'
/// `hash2_circuit` of the Poseidon hasher, in the namespace `label`. The
/// contract claims of its source and of the test system, which fails an
/// allocation only where the closure that computes its value fails: the call
/// succeeds exactly where both inputs carry a value, and else the error is
/// `AssignmentMissing`; the result is a variable of this system, assigned the
/// value that it carries, which is the Poseidon hash of the two.
#[verifier::external_body]
pub(crate) fn poseidon_hash2(
    cs: &mut ConstraintSystem,
    label: &str,
    a: &AllocatedNum,
    b: &AllocatedNum,
) -> (r: Result<AllocatedNum, SynthesisError>)
    requires
        label_ok(label@),
        name_free(*old(cs), label@),
    ensures
        grows_in_child(*old(cs), *final(cs), label@),
        r is Ok <==> (num_value(*a) is Some && num_value(*b) is Some),
        r is Err ==> is_assignment_missing(r->Err_0),
        r is Ok ==> assigned(*final(cs), num_var(r->Ok_0), num_value(r->Ok_0)),
        r is Ok ==> num_value(r->Ok_0) == Some(
            poseidon(pair(num_value(*a)->Some_0, num_value(*b)->Some_0)),
        ),
{
    let cs = cs.inner.namespace(|| label);
    let inner = PoseidonFunction::hash2_circuit(cs, &a.inner, &b.inner)?;
    Ok(AllocatedNum { inner })
}

/// The hash of a level of two numbers as a new number, by `filecoin_hashers`'
/// `hash_multi_leaf_circuit` of the Poseidon hasher at arity two, in the
/// namespace `label`. The contract claims of its source and of the test
/// system, which fails an allocation only where the closure that computes its
/// value fails: the call succeeds exactly where every input carries a value,
/// and else the error is `AssignmentMissing`; the result is a variable of this
/// system, assigned the value that it carries, which is the level's hash.
#[verifier::external_body]
pub(crate) fn poseidon_multi_2(
    cs: &mut ConstraintSystem,
    label: &str,
    leaves: &Vec<AllocatedNum>,
    height: usize,
) -> (r: Result<AllocatedNum, SynthesisError>)
    requires
        label_ok(label@),
        name_free(*old(cs), label@),
        leaves@.len() == 2,
    ensures
        grows_in_child(*old(cs), *final(cs), label@),
        r is Ok <==> all_some(num_values(leaves@)),
        r is Err ==> is_assignment_missing(r->Err_0),
        r is Ok ==> assigned(*final(cs), num_var(r->Ok_0), num_value(r->Ok_0)),
        r is Ok ==> num_value(r->Ok_0) == Some(
            poseidon_level(height as nat, unwrapped(num_values(leaves@))),
        ),
{
    let inners: Vec<_> = leaves.iter().map(|n| n.inner.clone()).collect();
    let cs = cs.inner.namespace(|| label);
    let inner = PoseidonFunction::hash_multi_leaf_circuit::<U2, _>(cs, &inners, height)?;
    Ok(AllocatedNum { inner })
}

/// As [`poseidon_multi_2`], at arity four.
#[verifier::external_body]
pub(crate) fn poseidon_multi_4(
    cs: &mut ConstraintSystem,
    label: &str,
    leaves: &Vec<AllocatedNum>,
    height: usize,
) -> (r: Result<AllocatedNum, SynthesisError>)
    requires
        label_ok(label@),
        name_free(*old(cs), label@),
        leaves@.len() == 4,
    ensures
        grows_in_child(*old(cs), *final(cs), label@),
        r is Ok <==> all_some(num_values(leaves@)),
        r is Err ==> is_assignment_missing(r->Err_0),
        r is Ok ==> assigned(*final(cs), num_var(r->Ok_0), num_value(r->Ok_0)),
        r is Ok ==> num_value(r->Ok_0) == Some(
            poseidon_level(height as nat, unwrapped(num_values(leaves@))),
        ),
{
    let inners: Vec<_> = leaves.iter().map(|n| n.inner.clone()).collect();
    let cs = cs.inner.namespace(|| label);
    let inner = PoseidonFunction::hash_multi_leaf_circuit::<U4, _>(cs, &inners, height)?;
    Ok(AllocatedNum { inner })
}

/// As [`poseidon_multi_2`], at arity eight.
#[verifier::external_body]
pub(crate) fn poseidon_multi_8(
    cs: &mut ConstraintSystem,
    label: &str,
    leaves: &Vec<AllocatedNum>,
    height: usize,
) -> (r: Result<AllocatedNum, SynthesisError>)
    requires
        label_ok(label@),
        name_free(*old(cs), label@),
        leaves@.len() == 8,
    ensures
        grows_in_child(*old(cs), *final(cs), label@),
        r is Ok <==> all_some(num_values(leaves@)),
        r is Err ==> is_assignment_missing(r->Err_0),
        r is Ok ==> assigned(*final(cs), num_var(r->Ok_0), num_value(r->Ok_0)),
        r is Ok ==> num_value(r->Ok_0) == Some(
            poseidon_level(height as nat, unwrapped(num_values(leaves@))),
        ),
{
    let inners: Vec<_> = leaves.iter().map(|n| n.inner.clone()).collect();
    let cs = cs.inner.namespace(|| label);
    let inner = PoseidonFunction::hash_multi_leaf_circuit::<U8, _>(cs, &inners, height)?;
    Ok(AllocatedNum { inner })
}

/// As [`poseidon_multi_2`], at arity sixteen.
#[verifier::external_body]
pub(crate) fn poseidon_multi_16(
    cs: &mut ConstraintSystem,
    label: &str,
    leaves: &Vec<AllocatedNum>,
    height: usize,
) -> (r: Result<AllocatedNum, SynthesisError>)
    requires
        label_ok(label@),
        name_free(*old(cs), label@),
        leaves@.len() == 16,
    ensures
        grows_in_child(*old(cs), *final(cs), label@),
        r is Ok <==> all_some(num_values(leaves@)),
        r is Err ==> is_assignment_missing(r->Err_0),
        r is Ok ==> assigned(*final(cs), num_var(r->Ok_0), num_value(r->Ok_0)),
        r is Ok ==> num_value(r->Ok_0) == Some(
            poseidon_level(height as nat, unwrapped(num_values(leaves@))),
        ),
{
    let inners: Vec<_> = leaves.iter().map(|n| n.inner.clone()).collect();
    let cs = cs.inner.namespace(|| label);
    let inner = PoseidonFunction::hash_multi_leaf_circuit::<U16, _>(cs, &inners, height)?;
    Ok(AllocatedNum { inner })
}

} // verus!
