//! What the gadgets' constraints say of every assignment that satisfies them,
//! and what their values say of the computations they stand for.

use crate::bits::{
    bit_assignments, bit_of, bit_vars, bits_of, boolean_constraints, decomposes, le_value,
    lemma_decompose_recompose, packing_constraint, weighted_sum,
};
use crate::challenges::{challenges_generated, digest_index};
use crate::field::modulus;
use crate::bits::lemma_le_value_bound;
use crate::hash::poseidon_level;
use crate::merkle::{
    arity_bit_len, equality_constraint, inclusion_known, inclusion_root, level_root, merkle_root,
    proves_inclusion,
};
use vstd::arithmetic::power2::lemma2_to64;
use crate::selector::{high_value, lemma_high_value_fits, selected_sum, selection_known, high_bits};
use crate::semantics::{
    assignment_of, constraint_holds, lc_value, lemma_value_add_term, lemma_value_of_nothing,
    lemma_value_of_single, Assignment,
};
use crate::system::{
    add_term, assigned, bit_value, bit_values, bit_var, cs_aux, cs_constraints, no_terms, num_value, one_var,
    num_var, product_constraint, single, unwrapped, AllocatedNum, ConstraintSystem, Var,
};
use crate::update::{sum_constraint, update_known, updates_label};
use bellperson::gadgets::boolean::AllocatedBit;
use vstd::arithmetic::div_mod::{
    lemma_add_mod_noop, lemma_fundamental_div_mod_converse, lemma_mod_twice,
    lemma_mul_mod_noop_general, lemma_small_mod,
};
use vstd::arithmetic::power2::pow2;
use vstd::prelude::*;

verus! {

/// The constraint `x * 1 = y` holds exactly where `x` and `y` have the same
/// value in the field.
pub proof fn law_equality_constraint(x: Var, y: Var, w: Assignment)
    requires
        w.valid(),
        w.covers(x),
        w.covers(y),
    ensures
        constraint_holds(equality_constraint(x, y), w) <==> w.value(x) % modulus() == w.value(y)
            % modulus(),
{
    let p = modulus() as int;
    lemma_value_of_single(x, w);
    lemma_value_of_single(y, w);
    lemma_mod_twice(w.value(x) as int, p);
    assert((w.value(x) % modulus()) * 1 == w.value(x) % modulus()) by (nonlinear_arith);
}

/// After a successful proof of inclusion whose inputs all carry values, the
/// constraint that it enforced last holds under the system's own assignment
/// exactly where the root that the leaf, the challenge and the path lead to
/// is the claimed root.
pub proof fn law_inclusion_checked(
    pre: ConstraintSystem,
    post: ConstraintSystem,
    computed: AllocatedNum,
    c_bits: Seq<AllocatedBit>,
    leaf: AllocatedNum,
    path: Seq<Vec<AllocatedNum>>,
    root: AllocatedNum,
)
    requires
        proves_inclusion(pre, post, computed, c_bits, leaf, path, root),
        inclusion_known(leaf, c_bits, path),
        assignment_of(post).valid(),
        num_value(root) is Some,
        assigned(post, num_var(root), num_value(root)),
        assigned(post, num_var(computed), num_value(computed)),
    ensures
        constraint_holds(cs_constraints(post).last(), assignment_of(post)) <==> inclusion_root(
            leaf,
            c_bits,
            path,
        ) % modulus() == num_value(root)->Some_0 % modulus(),
{
    law_equality_constraint(num_var(computed), num_var(root), assignment_of(post));
}

/// The hash of a level has no collisions: at one height, different levels
/// have different hashes.
pub open spec fn collision_free() -> bool {
    forall|h: nat, p: Seq<nat>, q: Seq<nat>|
        #![trigger poseidon_level(h, p), poseidon_level(h, q)]
        poseidon_level(h, p) == poseidon_level(h, q) ==> p == q
}

/// Every level of the path has an arity that the hash supports, and the
/// challenge has the bits of every level's index.
pub open spec fn indices_fit(bits: Seq<bool>, path: Seq<Seq<nat>>) -> bool
    decreases path.len(),
{
    if path.len() == 0 {
        true
    } else {
        let k = arity_bit_len(path[0].len() + 1);
        &&& 1 <= k <= bits.len()
        &&& indices_fit(bits.subrange(k as int, bits.len() as int), path.drop_first())
    }
}

/// Where the hash has no collisions, the root binds the leaf and every
/// sibling: two leaves with paths of one shape that lead to the same root
/// under the same challenge are the same leaf with the same path. So a proof
/// with another leaf or another sibling leads to another root.
pub proof fn law_root_binds_leaf_and_path(
    leaf: nat,
    path: Seq<Seq<nat>>,
    other_leaf: nat,
    other_path: Seq<Seq<nat>>,
    bits: Seq<bool>,
    height: nat,
)
    requires
        collision_free(),
        path.len() == other_path.len(),
        forall|l: int| 0 <= l < path.len() ==> (#[trigger] path[l]).len() == other_path[l].len(),
        indices_fit(bits, path),
        merkle_root(leaf, bits, path, height) == merkle_root(other_leaf, bits, other_path, height),
    ensures
        leaf == other_leaf,
        path == other_path,
    decreases path.len(),
{
    if path.len() == 0 {
        assert(path =~= other_path);
    } else {
        let k = arity_bit_len(path[0].len() + 1) as int;
        let chunk = bits.subrange(0, k);
        let rest = bits.subrange(k, bits.len() as int);
        let siblings = path[0];
        let others = other_path[0];
        assert(siblings.len() == others.len());
        let node = level_root(leaf, chunk, siblings, height);
        let other_node = level_root(other_leaf, chunk, others, height);
        assert forall|l: int| 0 <= l < path.drop_first().len() implies (#[trigger] path.drop_first()[l]).len()
            == other_path.drop_first()[l].len() by {
            assert(path.drop_first()[l] == path[l + 1]);
            assert(other_path.drop_first()[l] == other_path[l + 1]);
        }
        law_root_binds_leaf_and_path(
            node,
            path.drop_first(),
            other_node,
            other_path.drop_first(),
            rest,
            height + 1,
        );
        let i = le_value(chunk) as int;
        lemma_le_value_bound(chunk);
        lemma2_to64();
        assert(i <= siblings.len());
        let list = siblings.insert(i, leaf);
        let other_list = others.insert(i, other_leaf);
        assert(poseidon_level(height, list) == poseidon_level(height, other_list));
        assert(list == other_list);
        assert(list[i] == leaf);
        assert(other_list[i] == other_leaf);
        assert(list.remove(i) =~= siblings);
        assert(other_list.remove(i) =~= others);
        assert forall|l: int| 0 <= l < path.len() implies path[l] == other_path[l] by {
            if l > 0 {
                assert(path[l] == path.drop_first()[l - 1]);
                assert(other_path[l] == other_path.drop_first()[l - 1]);
            }
        }
        assert(path =~= other_path);
    }
}

/// Every assignment that satisfies the two constraints of the label updater
/// gives the new label the value `old + data * rho`, in the field.
pub proof fn law_label_update(old: Var, data: Var, rho: Var, product: Var, new: Var, w: Assignment)
    requires
        w.valid(),
        w.covers(old),
        w.covers(data),
        w.covers(rho),
        w.covers(product),
        w.covers(new),
        constraint_holds(product_constraint(data, rho, product), w),
        constraint_holds(sum_constraint(old, product, new), w),
    ensures
        w.value(new) % modulus() == (w.value(old) + w.value(data) * w.value(rho)) % modulus(),
{
    let p = modulus() as int;
    let o = w.value(old) as int;
    let d = w.value(data) as int;
    let r = w.value(rho) as int;
    let t = w.value(product) as int;
    let n = w.value(new) as int;
    lemma_value_of_single(old, w);
    lemma_value_of_single(data, w);
    lemma_value_of_single(rho, w);
    lemma_value_of_single(product, w);
    lemma_value_of_single(new, w);
    lemma_value_add_term(single(old), product, 1, w);
    // The product constraint: data * rho = product.
    lemma_mul_mod_noop_general(d, r, p);
    assert(t % p == (d * r) % p);
    // The sum constraint: (old + product) * 1 = new.
    let sum = lc_value(add_term(single(old), product, 1), w) as int;
    assert(1 * t == t) by (nonlinear_arith);
    assert(sum == (o % p + t) % p);
    assert(sum * 1 == sum) by (nonlinear_arith);
    lemma_small_mod(sum as nat, modulus());
    assert(n % p == sum);
    lemma_add_mod_noop(o, t, p);
    lemma_add_mod_noop(o % p, t, p);
    lemma_mod_twice(o, p);
    lemma_add_mod_noop(o, d * r, p);
}

/// After a successful update whose inputs are variables of the system, the
/// two constraints that it appended hold under the system's own assignment.
pub proof fn law_label_update_satisfied(
    pre: ConstraintSystem,
    post: ConstraintSystem,
    result: AllocatedNum,
    label_r_old: AllocatedNum,
    label_d_new: AllocatedNum,
    rho: AllocatedNum,
)
    requires
        updates_label(pre, post, result, label_r_old, label_d_new, rho),
        update_known(label_r_old, label_d_new, rho),
        assignment_of(post).valid(),
        assigned(post, num_var(label_r_old), num_value(label_r_old)),
        assigned(post, num_var(label_d_new), num_value(label_d_new)),
        assigned(post, num_var(rho), num_value(rho)),
    ensures
        cs_constraints(post).len() == cs_constraints(pre).len() + 2,
        constraint_holds(
            cs_constraints(post)[cs_constraints(pre).len() as int],
            assignment_of(post),
        ),
        constraint_holds(cs_constraints(post).last(), assignment_of(post)),
{
    let p = modulus() as int;
    let w = assignment_of(post);
    let a0 = cs_aux(pre).len();
    let old = num_var(label_r_old);
    let data = num_var(label_d_new);
    let scalar = num_var(rho);
    let product = Var::Aux(a0 as usize);
    let new = Var::Aux((a0 + 1) as usize);
    let o = num_value(label_r_old)->Some_0 as int;
    let d = num_value(label_d_new)->Some_0 as int;
    let r = num_value(rho)->Some_0 as int;
    let t = (d * r) % p;
    assert(w.covers(old) && w.value(old) == o);
    assert(w.covers(data) && w.value(data) == d);
    assert(w.covers(scalar) && w.value(scalar) == r);
    assert(w.covers(product) && w.value(product) == t);
    assert(w.covers(new) && w.value(new) == (o + d * r) % p);
    lemma_value_of_single(old, w);
    lemma_value_of_single(data, w);
    lemma_value_of_single(scalar, w);
    lemma_value_of_single(product, w);
    lemma_value_of_single(new, w);
    lemma_value_add_term(single(old), product, 1, w);
    lemma_mul_mod_noop_general(d, r, p);
    lemma_mod_twice(d * r, p);
    assert(constraint_holds(product_constraint(data, scalar, product), w));
    let sum = lc_value(add_term(single(old), product, 1), w) as int;
    assert(1 * t == t) by (nonlinear_arith);
    assert(sum == (o % p + t) % p);
    assert(sum * 1 == sum) by (nonlinear_arith);
    lemma_small_mod(sum as nat, modulus());
    lemma_add_mod_noop(o, d * r, p);
    lemma_mod_twice(o + d * r, p);
    assert(constraint_holds(sum_constraint(old, product, new), w));
}

/// The sum of the values of the variables, the one at index `i` weighted by
/// `2^i`.
pub open spec fn weighted_value(vars: Seq<Var>, w: Assignment) -> nat
    decreases vars.len(),
{
    if vars.len() == 0 {
        0
    } else {
        weighted_value(vars.drop_last(), w) + pow2((vars.len() - 1) as nat) * w.value(vars.last())
    }
}

/// The value of the weighted sum of variables is the weighted sum of their
/// values, in the field.
pub proof fn lemma_value_of_weighted_sum(vars: Seq<Var>, w: Assignment)
    requires
        w.valid(),
        forall|i: int| 0 <= i < vars.len() ==> w.covers(#[trigger] vars[i]),
    ensures
        lc_value(weighted_sum(vars), w) == weighted_value(vars, w) % modulus(),
    decreases vars.len(),
{
    let p = modulus() as int;
    if vars.len() == 0 {
        lemma_value_of_nothing(w);
        lemma_small_mod(0, modulus());
    } else {
        let rest = vars.drop_last();
        let v = vars.last();
        let weight = pow2((vars.len() - 1) as nat) as int;
        let x = w.value(v) as int;
        assert forall|i: int| 0 <= i < rest.len() implies w.covers(#[trigger] rest[i]) by {
            assert(rest[i] == vars[i]);
        }
        lemma_value_of_weighted_sum(rest, w);
        lemma_value_add_term(weighted_sum(rest), v, (weight % p) as nat, w);
        lemma_mul_mod_noop_general(weight, x, p);
        lemma_add_mod_noop(weighted_value(rest, w) as int, (weight % p) * x, p);
        lemma_add_mod_noop(weighted_value(rest, w) as int, weight * x, p);
        lemma_mod_twice(weighted_value(rest, w) as int, p);
    }
}

/// Every assignment that satisfies the constraint of a decomposition gives
/// the number the value that its bits' variables recompose to, in the field.
pub proof fn law_packing_constraint(vars: Seq<Var>, target: Var, w: Assignment)
    requires
        w.valid(),
        w.covers(target),
        forall|i: int| 0 <= i < vars.len() ==> w.covers(#[trigger] vars[i]),
        constraint_holds(packing_constraint(vars, target), w),
    ensures
        w.value(target) % modulus() == weighted_value(vars, w) % modulus(),
{
    let p = modulus() as int;
    lemma_value_of_weighted_sum(vars, w);
    lemma_value_of_single(target, w);
    let sum = lc_value(weighted_sum(vars), w);
    assert(sum * 1 == sum) by (nonlinear_arith);
    lemma_small_mod(sum, modulus());
}

/// Where every variable has the value zero or one, the weighted sum of the
/// values is the number that the bits stand for.
pub proof fn law_weighted_bits(vars: Seq<Var>, w: Assignment)
    requires
        forall|i: int|
            0 <= i < vars.len() ==> w.value(#[trigger] vars[i]) == 0 || w.value(vars[i]) == 1,
    ensures
        weighted_value(vars, w) == le_value(Seq::new(vars.len(), |i: int| w.value(vars[i]) == 1)),
    decreases vars.len(),
{
    let bits = Seq::new(vars.len(), |i: int| w.value(vars[i]) == 1);
    if vars.len() > 0 {
        let rest = vars.drop_last();
        assert forall|i: int| 0 <= i < rest.len() implies w.value(#[trigger] rest[i]) == 0
            || w.value(rest[i]) == 1 by {
            assert(rest[i] == vars[i]);
        }
        law_weighted_bits(rest, w);
        assert(bits.drop_last() =~= Seq::new(rest.len(), |i: int| w.value(rest[i]) == 1));
        let weight = pow2((vars.len() - 1) as nat);
        let x = w.value(vars.last());
        assert(x == 0 || x == 1);
        assert(weight * x == if x == 1 {
            weight
        } else {
            0
        }) by (nonlinear_arith)
            requires
                x == 0 || x == 1,
        ;
    }
}

/// After a decomposition, every assignment that gives each bit's variable
/// zero or one and satisfies the constraint enforced last gives the number
/// the value that the bits recompose to, in the field.
pub proof fn law_decomposition_binds(
    pre: ConstraintSystem,
    post: ConstraintSystem,
    bits: Seq<AllocatedBit>,
    x: nat,
    target: Var,
    w: Assignment,
)
    requires
        decomposes(pre, post, bits, x, target),
        w.valid(),
        w.covers(target),
        forall|i: int| 0 <= i < bits.len() ==> w.covers(bit_var(#[trigger] bits[i])),
        forall|i: int|
            0 <= i < bits.len() ==> w.value(bit_var(#[trigger] bits[i])) == 0 || w.value(
                bit_var(bits[i]),
            ) == 1,
        constraint_holds(cs_constraints(post).last(), w),
    ensures
        w.value(target) % modulus() == le_value(
            Seq::new(bits.len(), |i: int| w.value(bit_var(bits[i])) == 1),
        ) % modulus(),
{
    let vars = bit_vars(bits);
    assert forall|i: int| 0 <= i < vars.len() implies w.covers(#[trigger] vars[i]) by {
        assert(vars[i] == bit_var(bits[i]));
    }
    assert forall|i: int| 0 <= i < vars.len() implies w.value(#[trigger] vars[i]) == 0 || w.value(
        vars[i],
    ) == 1 by {
        assert(vars[i] == bit_var(bits[i]));
    }
    law_packing_constraint(vars, target, w);
    law_weighted_bits(vars, w);
    assert(Seq::new(vars.len(), |i: int| w.value(vars[i]) == 1) =~= Seq::new(
        bits.len(),
        |i: int| w.value(bit_var(bits[i])) == 1,
    ));
}

/// The bit of weight `2^i` of `x`, as a number.
pub open spec fn bit_number(x: nat, i: int) -> nat {
    if bit_of(x, i as nat) {
        1
    } else {
        0
    }
}

/// Under an assignment that covers the variables of the first `n` bits of
/// `x` in a row, their weighted sum is `x` modulo `2^n`.
proof fn lemma_weight_of_bits(vars: Seq<Var>, x: nat, first: nat, w: Assignment)
    requires
        w.valid(),
        first + vars.len() <= w.aux.len(),
        forall|i: int| 0 <= i < vars.len() ==> #[trigger] vars[i] == Var::Aux((first + i) as usize),
        forall|i: int| 0 <= i < vars.len() ==> w.aux[first + i] == #[trigger] bit_number(x, i),
    ensures
        weighted_value(vars, w) == le_value(bits_of(x, vars.len())),
{
    assert forall|i: int| 0 <= i < vars.len() implies w.value(#[trigger] vars[i]) == 0 || w.value(
        vars[i],
    ) == 1 by {
        assert(w.aux[first + i] == bit_number(x, i));
    }
    law_weighted_bits(vars, w);
    assert forall|i: int| 0 <= i < vars.len() implies (w.value(vars[i]) == 1) == bit_of(
        x,
        i as nat,
    ) by {
        assert(w.aux[first + i] == bit_number(x, i));
    }
    assert(Seq::new(vars.len(), |i: int| w.value(vars[i]) == 1) =~= bits_of(x, vars.len()));
}

/// After a successful decomposition of a number that is a variable of the
/// system, the boolean constraint of every bit and the constraint that ties
/// the bits to the number hold under the system's own assignment.
pub proof fn law_decomposition_satisfied(
    pre: ConstraintSystem,
    post: ConstraintSystem,
    bits: Seq<AllocatedBit>,
    num: AllocatedNum,
)
    requires
        num_value(num) is Some,
        num_value(num)->Some_0 < modulus(),
        decomposes(pre, post, bits, num_value(num)->Some_0, num_var(num)),
        assignment_of(post).valid(),
        assigned(post, num_var(num), num_value(num)),
    ensures
        cs_constraints(post).len() == cs_constraints(pre).len() + 256,
        forall|k: int|
            cs_constraints(pre).len() <= k < cs_constraints(post).len() ==> constraint_holds(
                #[trigger] cs_constraints(post)[k],
                assignment_of(post),
            ),
{
    let p = modulus() as int;
    let w = assignment_of(post);
    let x = num_value(num)->Some_0;
    let a0 = cs_aux(pre).len();
    let c0 = cs_constraints(pre).len();
    let target = num_var(num);
    let vars = bit_vars(bits);
    assert(w.covers(target) && w.value(target) == x);
    assert forall|i: int| 0 <= i < 255 implies w.aux[a0 + i] == #[trigger] bit_number(x, i) by {
        assert(w.aux[a0 + i] == bit_assignments(x)[i]);
    }
    assert forall|i: int| 0 <= i < vars.len() implies w.covers(#[trigger] vars[i]) by {
        assert(vars[i] == bit_var(bits[i]));
    }
    assert forall|i: int| 0 <= i < vars.len() implies #[trigger] vars[i] == Var::Aux(
        (a0 + i) as usize,
    ) by {
        assert(vars[i] == bit_var(bits[i]));
    }
    lemma_weight_of_bits(vars, x, a0, w);
    lemma_decompose_recompose(x);
    lemma_value_of_weighted_sum(vars, w);
    lemma_value_of_single(target, w);
    lemma_small_mod(x, modulus());
    assert(x * 1 == x) by (nonlinear_arith);
    assert(constraint_holds(packing_constraint(vars, target), w));
    lemma_value_of_nothing(w);
    assert forall|k: int| c0 <= k < cs_constraints(post).len() implies constraint_holds(
        #[trigger] cs_constraints(post)[k],
        w,
    ) by {
        if k < c0 + 255 {
            let i = k - c0;
            let v = Var::Aux((a0 + i) as usize);
            let b = w.aux[a0 + i] as int;
            assert(cs_constraints(post)[k] == boolean_constraints(a0)[i]);
            assert(w.covers(v) && w.value(v) == b);
            assert(w.covers(one_var()) && w.value(one_var()) == 1);
            lemma_value_of_single(v, w);
            lemma_value_add_term(no_terms(), one_var(), 1, w);
            lemma_value_add_term(add_term(no_terms(), one_var(), 1), v, (p - 1) as nat, w);
            lemma_small_mod(1, modulus());
            lemma_small_mod(0, modulus());
            let minus = lc_value(
                add_term(add_term(no_terms(), one_var(), 1), v, (p - 1) as nat),
                w,
            ) as int;
            if b == 0 {
                assert((p - 1) * 0 == 0) by (nonlinear_arith);
                assert(minus * 0 == 0) by (nonlinear_arith);
            } else {
                assert((p - 1) * 1 == p - 1) by (nonlinear_arith);
                assert(minus == p % p);
                assert(p % p == 0) by {
                    vstd::arithmetic::div_mod::lemma_mod_multiples_basic(1, p);
                }
                assert(0 * 1 == 0) by (nonlinear_arith);
            }
        }
    }
}

/// Where the selector is set at the position `i` and nowhere else, the
/// selector returns the number made of the `hs[i]` highest bits of the
/// challenge.
pub proof fn law_one_hot_selects(
    c_bits: Seq<AllocatedBit>,
    select: Seq<AllocatedBit>,
    hs: Seq<usize>,
    i: int,
)
    requires
        select.len() == hs.len(),
        0 <= i < hs.len(),
        forall|k: int| 0 <= k < hs.len() ==> hs[k] <= c_bits.len() && hs[k] <= 254,
        selection_known(c_bits, select, hs, hs.len()),
        forall|k: int| 0 <= k < hs.len() ==> bit_value(#[trigger] select[k]) == Some(k == i),
    ensures
        selected_sum(c_bits, select, hs, hs.len()) == high_value(c_bits, hs[i] as nat),
{
    lemma_one_hot_prefix(c_bits, select, hs, i, hs.len());
}

proof fn lemma_one_hot_prefix(
    c_bits: Seq<AllocatedBit>,
    select: Seq<AllocatedBit>,
    hs: Seq<usize>,
    i: int,
    n: nat,
)
    requires
        select.len() == hs.len(),
        0 <= i < hs.len(),
        n <= hs.len(),
        forall|k: int| 0 <= k < hs.len() ==> hs[k] <= c_bits.len() && hs[k] <= 254,
        forall|k: int| 0 <= k < hs.len() ==> bit_value(#[trigger] select[k]) == Some(k == i),
    ensures
        selected_sum(c_bits, select, hs, n) == if n > i {
            high_value(c_bits, hs[i] as nat)
        } else {
            0
        },
    decreases n,
{
    if n > 0 {
        lemma_one_hot_prefix(c_bits, select, hs, i, (n - 1) as nat);
        let picked = high_value(c_bits, hs[i] as nat);
        lemma_high_value_fits(unwrapped(bit_values(high_bits(c_bits, hs[i] as nat))));
        lemma_small_mod(picked, modulus());
        lemma_small_mod(0, modulus());
        assert(bit_value(select[n - 1]) == Some(n - 1 == i));
    }
}

/// Two derivations from the same commitment and partition give the same
/// challenges.
pub proof fn law_challenges_deterministic(
    first: Seq<Vec<AllocatedBit>>,
    second: Seq<Vec<AllocatedBit>>,
    comm_first: AllocatedNum,
    comm_second: AllocatedNum,
    partition_first: AllocatedNum,
    partition_second: AllocatedNum,
    challenges: nat,
    bits_per_challenge: nat,
)
    requires
        first.len() == challenges,
        second.len() == challenges,
        challenges_generated(first, comm_first, partition_first, challenges, bits_per_challenge),
        challenges_generated(
            second,
            comm_second,
            partition_second,
            challenges,
            bits_per_challenge,
        ),
        num_value(comm_first) is Some,
        num_value(comm_first) == num_value(comm_second),
        num_value(partition_first) == num_value(partition_second),
    ensures
        forall|g: int|
            0 <= g < challenges ==> unwrapped(bit_values(#[trigger] first[g]@)) == unwrapped(
                bit_values(second[g]@),
            ),
{
    assert forall|g: int| 0 <= g < challenges implies unwrapped(bit_values(#[trigger] first[g]@))
        == unwrapped(bit_values(second[g]@)) by {
        assert(second[g]@.len() == bits_per_challenge);
    }
}

/// The digests of different partitions, and the different digests of one
/// partition, have different indices, as long as the indices stay below the
/// field's order.
pub proof fn law_digest_indices_differ(
    partition: nat,
    j: nat,
    other_partition: nat,
    other_j: nat,
    digests: nat,
)
    requires
        j < digests,
        other_j < digests,
        partition * digests + j < modulus(),
        other_partition * digests + other_j < modulus(),
        digest_index(partition, digests, j) == digest_index(other_partition, digests, other_j),
    ensures
        partition == other_partition,
        j == other_j,
{
    lemma_small_mod(partition * digests + j, modulus());
    lemma_small_mod(other_partition * digests + other_j, modulus());
    let x = (partition * digests + j) as int;
    assert(partition * digests == digests * partition) by (nonlinear_arith);
    assert(other_partition * digests == digests * other_partition) by (nonlinear_arith);
    lemma_fundamental_div_mod_converse(x, digests as int, partition as int, j as int);
    lemma_fundamental_div_mod_converse(x, digests as int, other_partition as int, other_j as int);
}

} // verus!
