//! The label updater: the new label of a node is its old label plus its new
//! data label times a scalar.

use crate::field::{field_add, field_from_u64, modulus, scalar_value};
use crate::semantics::assignment_of;
use crate::labels::label_ok;
use crate::system::{
    add_term, alloc_num, cs_aux, cs_constraints, enforce, grows_in_namespace,
    is_assignment_missing, lc_add_term, lc_zero, lemma_step, lemma_under_is_within,
    lemma_unused_label_is_free, namespace_unused, num_get_value, num_get_variable, num_mul,
    num_value, num_var, one_var, product_constraint, single, AllocatedNum, Constraint,
    ConstraintSystem, Var,
};
use bellperson::SynthesisError;
use vstd::arithmetic::div_mod::{lemma_add_mod_noop, lemma_small_mod};
use vstd::prelude::*;

verus! {

/// The constraint `(x + y) * 1 = z` between three variables.
pub open spec fn sum_constraint(x: Var, y: Var, z: Var) -> Constraint {
    Constraint { a: add_term(single(x), y, 1), b: single(one_var()), c: single(z) }
}

/// The new label: `old + data * rho` in the field.
pub open spec fn new_label(old: nat, data: nat, rho: nat) -> nat {
    (old + data * rho) % modulus()
}

/// What a successful update leaves in the system: two new auxiliary
/// variables, the product and the new label, each with its constraint.
pub open spec fn updates_label(
    pre: ConstraintSystem,
    post: ConstraintSystem,
    result: AllocatedNum,
    label_r_old: AllocatedNum,
    label_d_new: AllocatedNum,
    rho: AllocatedNum,
) -> bool {
    let a0 = cs_aux(pre).len();
    let old = num_value(label_r_old)->Some_0;
    let data = num_value(label_d_new)->Some_0;
    let scalar = num_value(rho)->Some_0;
    let product = Var::Aux(a0 as usize);
    &&& num_value(result) == Some(new_label(old, data, scalar))
    &&& num_var(result) == Var::Aux((a0 + 1) as usize)
    &&& cs_aux(post) == cs_aux(pre).push((data * scalar) % modulus()).push(
        new_label(old, data, scalar),
    )
    &&& cs_constraints(post) == cs_constraints(pre).push(
        product_constraint(num_var(label_d_new), num_var(rho), product),
    ).push(sum_constraint(num_var(label_r_old), product, num_var(result)))
}

/// All three inputs carry values.
pub open spec fn update_known(label_r_old: AllocatedNum, label_d_new: AllocatedNum, rho: AllocatedNum) -> bool {
    num_value(label_r_old) is Some && num_value(label_d_new) is Some && num_value(rho) is Some
}

proof fn lemma_update_labels()
    ensures
        label_ok("label_d_new * rho"@),
        label_ok("label_r_new"@),
        label_ok("label_r_new == label_r_old + label_d_new * rho"@),
        "label_d_new * rho"@ != "label_r_new"@,
        "label_d_new * rho"@ != "label_r_new == label_r_old + label_d_new * rho"@,
        "label_r_new"@ != "label_r_new == label_r_old + label_d_new * rho"@,
{
    reveal_strlit("label_d_new * rho");
    reveal_strlit("label_r_new");
    reveal_strlit("label_r_new == label_r_old + label_d_new * rho");
    assert("label_d_new * rho"@.len() != "label_r_new"@.len());
    assert("label_d_new * rho"@.len() != "label_r_new == label_r_old + label_d_new * rho"@.len());
    assert("label_r_new"@.len() != "label_r_new == label_r_old + label_d_new * rho"@.len());
}

/// Returns the new label `label_r_old + label_d_new * rho` as a new variable:
/// one constraint for the product, one for the sum.
///
/// The current namespace must be unused. The call succeeds exactly where all
/// three inputs carry values.
pub fn label_r_new(
    cs: &mut ConstraintSystem,
    label_r_old: &AllocatedNum,
    label_d_new: &AllocatedNum,
    rho: &AllocatedNum,
) -> (r: Result<AllocatedNum, SynthesisError>)
    requires
        namespace_unused(*old(cs)),
    ensures
        grows_in_namespace(*old(cs), *final(cs)),
        assignment_of(*old(cs)).valid() ==> assignment_of(*final(cs)).valid(),
        update_known(*label_r_old, *label_d_new, *rho) ==> r is Ok && updates_label(
            *old(cs),
            *final(cs),
            r->Ok_0,
            *label_r_old,
            *label_d_new,
            *rho,
        ),
        !update_known(*label_r_old, *label_d_new, *rho) ==> r is Err && is_assignment_missing(
            r->Err_0,
        ),
{
    let ghost pre = *cs;
    let ghost used1 = Set::<Seq<char>>::empty().insert("label_d_new * rho"@);
    let ghost used2 = used1.insert("label_r_new"@);
    proof {
        lemma_update_labels();
        lemma_unused_label_is_free(pre, pre, Set::empty(), "label_d_new * rho"@);
    }
    let product = num_mul(cs, "label_d_new * rho", label_d_new, rho);
    let ghost multiplied = *cs;
    proof {
        lemma_step(pre, pre, multiplied, Set::empty(), "label_d_new * rho"@);
        lemma_under_is_within(pre, multiplied, used1);
        lemma_unused_label_is_free(pre, multiplied, used1, "label_r_new"@);
    }
    match product {
        Err(e) => Err(e),
        Ok(label_d_new_rho) => {
            let value = match (num_get_value(label_r_old), num_get_value(&label_d_new_rho)) {
                (Some(a), Some(b)) => {
                    proof {
                        let d = num_value(*label_d_new)->Some_0;
                        let s = num_value(*rho)->Some_0;
                        lemma_small_mod(scalar_value(a), modulus());
                        lemma_add_mod_noop(
                            scalar_value(a) as int,
                            (d * s) as int,
                            modulus() as int,
                        );
                    }
                    Some(field_add(&a, &b))
                },
                _ => None,
            };
            let sum = alloc_num(cs, "label_r_new", value);
            let ghost allocated = *cs;
            proof {
                lemma_step(pre, multiplied, allocated, used1, "label_r_new"@);
                lemma_under_is_within(pre, allocated, used2);
                lemma_unused_label_is_free(
                    pre,
                    allocated,
                    used2,
                    "label_r_new == label_r_old + label_d_new * rho"@,
                );
            }
            match sum {
                Err(e) => Err(e),
                Ok(label_r_new) => {
                    let one = field_from_u64(1);
                    let a = lc_add_term(
                        lc_add_term(lc_zero(), &one, num_get_variable(label_r_old)),
                        &one,
                        num_get_variable(&label_d_new_rho),
                    );
                    let b = lc_add_term(lc_zero(), &one, Var::Input(0));
                    let c = lc_add_term(lc_zero(), &one, num_get_variable(&label_r_new));
                    enforce(cs, "label_r_new == label_r_old + label_d_new * rho", a, b, c);
                    proof {
                        lemma_step(
                            pre,
                            allocated,
                            *cs,
                            used2,
                            "label_r_new == label_r_old + label_d_new * rho"@,
                        );
                        lemma_under_is_within(
                            pre,
                            *cs,
                            used2.insert("label_r_new == label_r_old + label_d_new * rho"@),
                        );
                    }
                    Ok(label_r_new)
                },
            }
        },
    }
}

} // verus!
