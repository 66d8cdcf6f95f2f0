//! The bit decomposer: it allocates the bits of a number and enforces that
//! they recompose to it. Also what the other gadgets need of bit sequences.

use crate::field::{field_add, field_from_u64, modulus, scalar_value};
use crate::semantics::assignment_of;
use crate::labels::label_ok;
use crate::system::{
    add_term, all_some, bit_get_variable, bit_value, bit_values, bit_var, cs_aux, cs_constraints,
    enforce, extends, grows_in_child, grows_in_namespace, is_assignment_missing, lc_add_term, lc_terms,
    lc_zero, lemma_step, lemma_under_is_within, lemma_unused_label_is_free, name_free,
    namespace_unused, no_terms, num_get_value, num_get_variable, num_value, num_var, one_var,
    single, unwrapped, AllocatedNum, Constraint, ConstraintSystem, Var,
};
use bellperson::gadgets::boolean::{field_into_allocated_bits_le, AllocatedBit, Boolean};
use bellperson::gadgets::multipack::pack_bits;
use bellperson::{ConstraintSystem as Synthesis, SynthesisError};
use blstrs::Scalar;
use vstd::arithmetic::div_mod::{lemma_add_mod_noop, lemma_breakdown, lemma_small_mod};
use vstd::arithmetic::power2::{lemma2_to64, lemma_pow2_adds, lemma_pow2_pos, lemma_pow2_unfold, pow2};
use vstd::prelude::*;

verus! {

/// The number that a bit sequence stands for, least significant bit first.
pub open spec fn le_value(bits: Seq<bool>) -> nat
    decreases bits.len(),
{
    if bits.len() == 0 {
        0
    } else {
        le_value(bits.drop_last()) + if bits.last() {
            pow2((bits.len() - 1) as nat)
        } else {
            0
        }
    }
}

/// The bit of weight `2^i` in the binary form of `x`.
pub open spec fn bit_of(x: nat, i: nat) -> bool {
    (x / pow2(i)) % 2 == 1
}

/// The `n` lowest bits of `x`, least significant first.
pub open spec fn bits_of(x: nat, n: nat) -> Seq<bool> {
    Seq::new(n, |i: int| bit_of(x, i as nat))
}

/// The variables of a list of allocated bits.
pub open spec fn bit_vars(bits: Seq<AllocatedBit>) -> Seq<Var> {
    Seq::new(bits.len(), |i: int| bit_var(bits[i]))
}

/// The linear combination in which the variable at index `i` has the weight
/// `2^i`.
pub open spec fn weighted_sum(vars: Seq<Var>) -> Map<Var, nat>
    decreases vars.len(),
{
    if vars.len() == 0 {
        no_terms()
    } else {
        add_term(
            weighted_sum(vars.drop_last()),
            vars.last(),
            pow2((vars.len() - 1) as nat) % modulus(),
        )
    }
}

/// The constraint `(1 - v) * v = 0`, which holds where `v` is zero or one.
pub open spec fn boolean_constraint(v: Var) -> Constraint {
    Constraint {
        a: add_term(add_term(no_terms(), one_var(), 1), v, (modulus() - 1) as nat),
        b: single(v),
        c: no_terms(),
    }
}

/// The constraint that the weighted sum of the bits' variables, times one, is
/// `target`.
pub open spec fn packing_constraint(vars: Seq<Var>, target: Var) -> Constraint {
    Constraint { a: weighted_sum(vars), b: single(one_var()), c: single(target) }
}

/// The values assigned to the variables of the 255 bits of `x`.
pub open spec fn bit_assignments(x: nat) -> Seq<nat> {
    Seq::new(
        255,
        |i: int|
            if bit_of(x, i as nat) {
                1nat
            } else {
                0nat
            },
    )
}

/// The boolean constraints of 255 auxiliary variables in a row.
pub open spec fn boolean_constraints(first: nat) -> Seq<Constraint> {
    Seq::new(255, |i: int| boolean_constraint(Var::Aux((first + i) as usize)))
}

/// The system `post` is `pre` with the 255 bits of `x` allocated as `bits`:
/// one auxiliary variable and one boolean constraint for each, in order.
pub open spec fn holds_bits_of(
    pre: ConstraintSystem,
    post: ConstraintSystem,
    bits: Seq<AllocatedBit>,
    x: nat,
) -> bool {
    &&& bits.len() == 255
    &&& forall|i: int|
        0 <= i < 255 ==> bit_value(#[trigger] bits[i]) == Some(bit_of(x, i as nat)) && bit_var(
            bits[i],
        ) == Var::Aux((cs_aux(pre).len() + i) as usize)
    &&& cs_aux(post) == cs_aux(pre) + bit_assignments(x)
    &&& cs_constraints(post) == cs_constraints(pre) + boolean_constraints(cs_aux(pre).len())
}

/// The field's order lies between `2^254` and `2^255`.
pub proof fn lemma_modulus_bounds()
    ensures
        pow2(254) < modulus() < pow2(255),
{
    lemma2_to64();
    lemma_pow2_adds(64, 64);
    lemma_pow2_adds(128, 64);
    lemma_pow2_adds(192, 62);
    lemma_pow2_adds(192, 63);
    assert(pow2(62) == 0x4000000000000000) by {
        lemma_pow2_unfold(63);
        lemma_pow2_unfold(64);
    }
    assert(pow2(63) == 0x8000000000000000) by {
        lemma_pow2_unfold(64);
    }
}

/// A bit sequence stands for a number below two to its length.
pub proof fn lemma_le_value_bound(bits: Seq<bool>)
    ensures
        le_value(bits) < pow2(bits.len()),
    decreases bits.len(),
{
    if bits.len() == 0 {
        lemma2_to64();
    } else {
        lemma_le_value_bound(bits.drop_last());
        lemma_pow2_unfold(bits.len());
    }
}

/// The `n` lowest bits of `x` recompose to `x` modulo `2^n`.
pub proof fn lemma_recompose(x: nat, n: nat)
    ensures
        le_value(bits_of(x, n)) == x % pow2(n),
    decreases n,
{
    if n == 0 {
        lemma2_to64();
    } else {
        let m = (n - 1) as nat;
        lemma_recompose(x, m);
        assert(bits_of(x, n).drop_last() =~= bits_of(x, m));
        lemma_pow2_pos(m);
        lemma_pow2_unfold(n);
        lemma_breakdown(x as int, pow2(m) as int, 2);
        assert(pow2(m) * 2 == pow2(n)) by (nonlinear_arith)
            requires
                pow2(n) == 2 * pow2(m),
        ;
        let q = (x / pow2(m)) % 2;
        assert(q == 0 || q == 1);
        assert(pow2(m) * q == if bits_of(x, n).last() {
            pow2(m)
        } else {
            0
        }) by (nonlinear_arith)
            requires
                q == 0 || q == 1,
                bits_of(x, n).last() == (q == 1),
        ;
    }
}

/// Decomposing a field element into 255 bits and recomposing them gives the
/// element back.
pub proof fn lemma_decompose_recompose(x: nat)
    requires
        x < modulus(),
    ensures
        bits_of(x, 255).len() == 255,
        le_value(bits_of(x, 255)) == x,
{
    lemma_recompose(x, 255);
    lemma_modulus_bounds();
    lemma_small_mod(x, pow2(255));
}

/// The bits of a field element, allocated in little-endian order in the
/// namespace `label`, by `bellperson`'s `field_into_allocated_bits_le`. The
/// contract claims what its source shows. With a value there are 255 bits,
/// bit `i` carrying the bit of weight `2^i` of the value's canonical integer;
/// each is a new auxiliary variable, assigned zero or one, with its boolean
/// constraint. Without a value the error is `AssignmentMissing`, and no
/// variable or constraint is added.
#[verifier::external_body]
pub(crate) fn decompose(cs: &mut ConstraintSystem, label: &str, value: Option<Scalar>) -> (r: Result<
    Vec<AllocatedBit>,
    SynthesisError,
>)
    requires
        label_ok(label@),
        name_free(*old(cs), label@),
    ensures
        grows_in_child(*old(cs), *final(cs), label@),
        cs_aux(*final(cs)).len() <= usize::MAX,
        match value {
            Some(v) => r is Ok && holds_bits_of(*old(cs), *final(cs), r->Ok_0@, scalar_value(v)),
            None => r is Err && is_assignment_missing(r->Err_0) && cs_aux(*final(cs)) == cs_aux(
                *old(cs),
            ) && cs_constraints(*final(cs)) == cs_constraints(*old(cs)),
        },
{
    field_into_allocated_bits_le(cs.inner.namespace(|| label), value)
}

/// The number that a bit sequence of at most 254 bits stands for, least
/// significant bit first, allocated in the namespace `label` by `bellperson`'s
/// `pack_bits`. The contract claims what its source shows. Where every bit
/// carries a value, the result is the next auxiliary variable, assigned the
/// bits' number, and one constraint is appended: the weighted sum of the bits'
/// variables, times one, is the result. Otherwise the error is
/// `AssignmentMissing`, and no variable or constraint is added.
#[verifier::external_body]
pub(crate) fn pack(cs: &mut ConstraintSystem, label: &str, bits: &[AllocatedBit]) -> (r: Result<
    AllocatedNum,
    SynthesisError,
>)
    requires
        label_ok(label@),
        name_free(*old(cs), label@),
        bits@.len() <= 254,
    ensures
        grows_in_child(*old(cs), *final(cs), label@),
        cs_aux(*final(cs)).len() <= usize::MAX,
        all_some(bit_values(bits@)) ==> {
            &&& r is Ok
            &&& num_value(r->Ok_0) == Some(le_value(unwrapped(bit_values(bits@))) % modulus())
            &&& num_var(r->Ok_0) == Var::Aux(cs_aux(*old(cs)).len() as usize)
            &&& cs_aux(*final(cs)) == cs_aux(*old(cs)).push(
                le_value(unwrapped(bit_values(bits@))) % modulus(),
            )
            &&& cs_constraints(*final(cs)) == cs_constraints(*old(cs)).push(
                packing_constraint(bit_vars(bits@), num_var(r->Ok_0)),
            )
        },
        !all_some(bit_values(bits@)) ==> {
            &&& r is Err
            &&& is_assignment_missing(r->Err_0)
            &&& cs_aux(*final(cs)) == cs_aux(*old(cs))
            &&& cs_constraints(*final(cs)) == cs_constraints(*old(cs))
        },
{
    let booleans: Vec<Boolean> = bits.iter().cloned().map(Boolean::from).collect();
    let inner = pack_bits(cs.inner.namespace(|| label), &booleans)?;
    Ok(AllocatedNum { inner })
}

/// A copy of an allocated bit, by `AllocatedBit`'s `Clone`.
#[verifier::external_body]
pub(crate) fn bit_clone(b: &AllocatedBit) -> (r: AllocatedBit)
    ensures
        r == *b,
{
    b.clone()
}

/// What decomposing a number that carries `x` leaves in the system: the 255
/// bits of `x`, which recompose to it, each with its variable and boolean
/// constraint, and the constraint that their weighted sum is the number.
pub open spec fn decomposes(
    pre: ConstraintSystem,
    post: ConstraintSystem,
    bits: Seq<AllocatedBit>,
    x: nat,
    target: Var,
) -> bool {
    &&& bits.len() == 255
    &&& forall|i: int|
        0 <= i < 255 ==> bit_value(#[trigger] bits[i]) == Some(bit_of(x, i as nat)) && bit_var(
            bits[i],
        ) == Var::Aux((cs_aux(pre).len() + i) as usize)
    &&& all_some(bit_values(bits))
    &&& le_value(unwrapped(bit_values(bits))) == x
    &&& cs_aux(post) == cs_aux(pre) + bit_assignments(x)
    &&& cs_constraints(post) == (cs_constraints(pre) + boolean_constraints(
        cs_aux(pre).len(),
    )).push(packing_constraint(bit_vars(bits), target))
}

/// The decomposition of a number that carries `x` lies in the system: the
/// variables of its 255 bits from the auxiliary variable `a0` on, each
/// assigned its bit, their boolean constraints from the constraint `c0` on,
/// and after these the constraint that ties the bits to the number.
pub open spec fn decomposed_at(
    cs: ConstraintSystem,
    bits: Seq<AllocatedBit>,
    x: nat,
    target: Var,
    a0: nat,
    c0: nat,
) -> bool {
    &&& bits.len() == 255
    &&& a0 + 255 <= cs_aux(cs).len()
    &&& c0 + 256 <= cs_constraints(cs).len()
    &&& forall|i: int|
        0 <= i < 255 ==> {
            &&& bit_value(#[trigger] bits[i]) == Some(bit_of(x, i as nat))
            &&& bit_var(bits[i]) == Var::Aux((a0 + i) as usize)
            &&& cs_aux(cs)[a0 + i] == bit_assignments(x)[i]
            &&& cs_constraints(cs)[c0 + i] == boolean_constraint(Var::Aux((a0 + i) as usize))
        }
    &&& cs_constraints(cs)[(c0 + 255) as int] == packing_constraint(bit_vars(bits), target)
}

/// What a decomposition appended lies where the system ended before it.
pub proof fn lemma_decomposed_at(
    pre: ConstraintSystem,
    post: ConstraintSystem,
    bits: Seq<AllocatedBit>,
    x: nat,
    target: Var,
)
    requires
        decomposes(pre, post, bits, x, target),
    ensures
        decomposed_at(post, bits, x, target, cs_aux(pre).len(), cs_constraints(pre).len()),
{
    let a0 = cs_aux(pre).len();
    let c0 = cs_constraints(pre).len();
    assert forall|i: int| 0 <= i < 255 implies {
        &&& bit_value(#[trigger] bits[i]) == Some(bit_of(x, i as nat))
        &&& bit_var(bits[i]) == Var::Aux((a0 + i) as usize)
        &&& cs_aux(post)[a0 + i] == bit_assignments(x)[i]
        &&& cs_constraints(post)[c0 + i] == boolean_constraint(Var::Aux((a0 + i) as usize))
    } by {
        assert(cs_constraints(post)[c0 + i] == boolean_constraints(a0)[i]);
    }
}

/// A decomposition stays where it lies while the system grows.
pub proof fn lemma_decomposed_persists(
    pre: ConstraintSystem,
    post: ConstraintSystem,
    bits: Seq<AllocatedBit>,
    x: nat,
    target: Var,
    a0: nat,
    c0: nat,
)
    requires
        decomposed_at(pre, bits, x, target, a0, c0),
        extends(cs_aux(pre), cs_aux(post)),
        extends(cs_constraints(pre), cs_constraints(post)),
    ensures
        decomposed_at(post, bits, x, target, a0, c0),
{
    assert forall|i: int| 0 <= i < 255 implies {
        &&& bit_value(#[trigger] bits[i]) == Some(bit_of(x, i as nat))
        &&& bit_var(bits[i]) == Var::Aux((a0 + i) as usize)
        &&& cs_aux(post)[a0 + i] == bit_assignments(x)[i]
        &&& cs_constraints(post)[c0 + i] == boolean_constraint(Var::Aux((a0 + i) as usize))
    } by {
        assert(cs_aux(post)[a0 + i] == cs_aux(pre)[a0 + i]);
        assert(cs_constraints(post)[c0 + i] == cs_constraints(pre)[c0 + i]);
    }
    assert(cs_constraints(post)[(c0 + 255) as int] == cs_constraints(pre)[(c0 + 255) as int]);
}

proof fn lemma_decomposer_labels()
    ensures
        label_ok("bits"@),
        label_ok("binary decomp"@),
        "bits"@ != "binary decomp"@,
{
    reveal_strlit("bits");
    reveal_strlit("binary decomp");
    assert("bits"@.len() != "binary decomp"@.len());
}

/// Allocates the 255 bits of `num`, least significant first, and enforces
/// that they recompose to it.
///
/// The current namespace must be unused. The call succeeds exactly where
/// `num` carries a value.
pub fn allocated_num_to_allocated_bits(cs: &mut ConstraintSystem, num: &AllocatedNum) -> (r: Result<
    Vec<AllocatedBit>,
    SynthesisError,
>)
    requires
        namespace_unused(*old(cs)),
    ensures
        grows_in_namespace(*old(cs), *final(cs)),
        assignment_of(*old(cs)).valid() ==> assignment_of(*final(cs)).valid(),
        match num_value(*num) {
            Some(x) => r is Ok && decomposes(*old(cs), *final(cs), r->Ok_0@, x, num_var(*num)),
            None => r is Err && is_assignment_missing(r->Err_0) && cs_aux(*final(cs)) == cs_aux(
                *old(cs),
            ) && cs_constraints(*final(cs)) == cs_constraints(*old(cs)),
        },
{
    let ghost pre = *cs;
    let value = num_get_value(num);
    proof {
        lemma_decomposer_labels();
        lemma_unused_label_is_free(pre, pre, Set::empty(), "bits"@);
    }
    let allocated = decompose(cs, "bits", value);
    let ghost mid = *cs;
    proof {
        lemma_step(pre, pre, mid, Set::empty(), "bits"@);
        lemma_under_is_within(pre, mid, Set::empty().insert("bits"@));
    }
    match allocated {
        Err(e) => Err(e),
        Ok(bits) => {
            let ghost x = num_value(*num)->Some_0;
            let ghost vars = bit_vars(bits@);
            let mut lc = lc_zero();
            let mut coeff = field_from_u64(1);
            let mut i: usize = 0;
            proof {
                lemma2_to64();
                lemma_modulus_bounds();
                lemma_small_mod(1, modulus());
                assert(vars.subrange(0, 0) =~= Seq::<Var>::empty());
            }
            while i < bits.len()
                invariant
                    i <= bits@.len(),
                    vars == bit_vars(bits@),
                    lc_terms(lc) == weighted_sum(vars.subrange(0, i as int)),
                    scalar_value(coeff) == pow2(i as nat) % modulus(),
                decreases bits@.len() - i,
            {
                let var = bit_get_variable(&bits[i]);
                proof {
                    let upto = vars.subrange(0, i + 1);
                    assert(upto.drop_last() =~= vars.subrange(0, i as int));
                    assert(upto.last() == var);
                    lemma_pow2_unfold((i + 1) as nat);
                    lemma_add_mod_noop(
                        pow2(i as nat) as int,
                        pow2(i as nat) as int,
                        modulus() as int,
                    );
                }
                lc = lc_add_term(lc, &coeff, var);
                coeff = field_add(&coeff, &coeff);
                i = i + 1;
            }
            let one = field_from_u64(1);
            let b = lc_add_term(lc_zero(), &one, Var::Input(0));
            let c = lc_add_term(lc_zero(), &one, num_get_variable(num));
            proof {
                lemma_unused_label_is_free(
                    pre,
                    mid,
                    Set::empty().insert("bits"@),
                    "binary decomp"@,
                );
                assert(vars.subrange(0, bits@.len() as int) =~= vars);
            }
            enforce(cs, "binary decomp", lc, b, c);
            proof {
                lemma_step(pre, mid, *cs, Set::empty().insert("bits"@), "binary decomp"@);
                lemma_under_is_within(
                    pre,
                    *cs,
                    Set::empty().insert("bits"@).insert("binary decomp"@),
                );
                assert(unwrapped(bit_values(bits@)) =~= bits_of(x, 255));
                lemma_decompose_recompose(x);
            }
            Ok(bits)
        },
    }
}

} // verus!
