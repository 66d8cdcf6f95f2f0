//! What it means for a constraint to hold: the value of a linear combination
//! under an assignment of the variables, in the field.

use crate::field::modulus;
use crate::system::{
    add_term, cs_aux, cs_inputs, no_terms, one_var, single, Constraint, ConstraintSystem, Var,
};
use vstd::arithmetic::div_mod::{lemma_add_mod_noop, lemma_mul_mod_noop_general, lemma_small_mod};
use vstd::prelude::*;

verus! {

/// A value for every variable: for the inputs and for the auxiliary
/// variables, by index.
pub struct Assignment {
    pub inputs: Seq<nat>,
    pub aux: Seq<nat>,
}

/// The assignment that a constraint system holds.
pub open spec fn assignment_of(cs: ConstraintSystem) -> Assignment {
    Assignment { inputs: cs_inputs(cs), aux: cs_aux(cs) }
}

impl Assignment {
    /// The variables can be indexed, and the constant one is one.
    pub open spec fn valid(self) -> bool {
        &&& self.inputs.len() <= usize::MAX
        &&& self.aux.len() <= usize::MAX
        &&& self.inputs.len() > 0
        &&& self.inputs[0] == 1
    }

    /// Whether the assignment has a value for the variable.
    pub open spec fn covers(self, v: Var) -> bool {
        match v {
            Var::Input(i) => i < self.inputs.len(),
            Var::Aux(i) => i < self.aux.len(),
        }
    }

    /// The value of a variable that the assignment covers.
    pub open spec fn value(self, v: Var) -> nat {
        match v {
            Var::Input(i) => self.inputs[i as int],
            Var::Aux(i) => self.aux[i as int],
        }
    }
}

/// The assignment of a new system is valid.
pub proof fn lemma_new_system_is_valid(cs: ConstraintSystem)
    requires
        cs_inputs(cs) == crate::system::root_inputs(),
        cs_aux(cs).len() == 0,
    ensures
        assignment_of(cs).valid(),
{
}

/// The input or the auxiliary variable with the given index.
pub open spec fn var_at(input: bool, i: nat) -> Var {
    if input {
        Var::Input(i as usize)
    } else {
        Var::Aux(i as usize)
    }
}

/// The coefficient of a variable in a linear combination.
pub open spec fn coefficient(m: Map<Var, nat>, v: Var) -> nat {
    if m.dom().contains(v) {
        m[v]
    } else {
        0
    }
}

/// The sum of `coefficient * value` over the first `n` variables of one kind.
pub open spec fn partial_sum(m: Map<Var, nat>, input: bool, values: Seq<nat>, n: nat) -> nat
    decreases n,
{
    if n == 0 {
        0
    } else {
        partial_sum(m, input, values, (n - 1) as nat) + coefficient(
            m,
            var_at(input, (n - 1) as nat),
        ) * values[n - 1]
    }
}

/// The value of a linear combination under an assignment.
pub open spec fn lc_value(m: Map<Var, nat>, w: Assignment) -> nat {
    (partial_sum(m, true, w.inputs, w.inputs.len()) + partial_sum(
        m,
        false,
        w.aux,
        w.aux.len(),
    )) % modulus()
}

/// Whether the constraint `a * b = c` holds under an assignment.
pub open spec fn constraint_holds(c: Constraint, w: Assignment) -> bool {
    (lc_value(c.a, w) * lc_value(c.b, w)) % modulus() == lc_value(c.c, w)
}

/// What a term `coeff * v` adds to the sum over the first `n` variables of one
/// kind.
pub open spec fn term_in(v: Var, coeff: nat, input: bool, values: Seq<nat>, n: nat) -> nat {
    match v {
        Var::Input(i) => if input && i < n {
            coeff * values[i as int]
        } else {
            0
        },
        Var::Aux(i) => if !input && i < n {
            coeff * values[i as int]
        } else {
            0
        },
    }
}

/// Sums of congruent numbers are congruent.
pub proof fn lemma_congruent_sums(a: int, a2: int, b: int, b2: int, m: int)
    requires
        0 < m,
        a % m == a2 % m,
        b % m == b2 % m,
    ensures
        (a + b) % m == (a2 + b2) % m,
{
    lemma_add_mod_noop(a, b, m);
    lemma_add_mod_noop(a2, b2, m);
}

/// The empty linear combination sums to zero.
pub proof fn lemma_partial_sum_empty(input: bool, values: Seq<nat>, n: nat)
    ensures
        partial_sum(no_terms(), input, values, n) == 0,
    decreases n,
{
    if n > 0 {
        lemma_partial_sum_empty(input, values, (n - 1) as nat);
        assert(coefficient(no_terms(), var_at(input, (n - 1) as nat)) * values[n - 1] == 0)
            by (nonlinear_arith)
            requires
                coefficient(no_terms(), var_at(input, (n - 1) as nat)) == 0,
        ;
    }
}

/// Adding a term to a linear combination adds the term's value to its sum,
/// modulo the field's order.
pub proof fn lemma_partial_sum_add_term(
    m: Map<Var, nat>,
    v: Var,
    coeff: nat,
    input: bool,
    values: Seq<nat>,
    n: nat,
)
    requires
        n <= values.len() <= usize::MAX,
    ensures
        partial_sum(add_term(m, v, coeff), input, values, n) % modulus() == (partial_sum(
            m,
            input,
            values,
            n,
        ) + term_in(v, coeff, input, values, n)) % modulus(),
    decreases n,
{
    let p = modulus() as int;
    let after = add_term(m, v, coeff);
    if n > 0 {
        let i = (n - 1) as nat;
        let u = var_at(input, i);
        let x = values[i as int] as int;
        lemma_partial_sum_add_term(m, v, coeff, input, values, i);
        let before_sum = partial_sum(m, input, values, i) as int;
        let after_sum = partial_sum(after, input, values, i) as int;
        let earlier = term_in(v, coeff, input, values, i) as int;
        if u == v {
            assert(earlier == 0);
            assert(term_in(v, coeff, input, values, n) == coeff * x);
            let old_c = coefficient(m, v) as int;
            let new_c = coefficient(after, v) as int;
            assert(new_c % p == (old_c + coeff) % p) by {
                if m.dom().contains(v) {
                    vstd::arithmetic::div_mod::lemma_mod_twice(old_c + coeff, p);
                }
            }
            lemma_mul_mod_noop_general(new_c, x, p);
            lemma_mul_mod_noop_general(old_c + coeff, x, p);
            assert((old_c + coeff) * x == old_c * x + coeff * x) by (nonlinear_arith);
            lemma_congruent_sums(after_sum, before_sum, new_c * x, old_c * x + coeff * x, p);
        } else {
            assert(coefficient(after, u) == coefficient(m, u));
            assert(term_in(v, coeff, input, values, n) == earlier);
            let t = coefficient(m, u) * x;
            lemma_congruent_sums(after_sum, before_sum + earlier, t, t, p);
        }
    }
}

/// The empty linear combination has the value zero.
pub proof fn lemma_value_of_nothing(w: Assignment)
    ensures
        lc_value(no_terms(), w) == 0,
{
    lemma_partial_sum_empty(true, w.inputs, w.inputs.len());
    lemma_partial_sum_empty(false, w.aux, w.aux.len());
    lemma_small_mod(0, modulus());
}

/// Adding the term `coeff * v` to a linear combination adds `coeff` times the
/// value of `v` to its value, in the field.
pub proof fn lemma_value_add_term(m: Map<Var, nat>, v: Var, coeff: nat, w: Assignment)
    requires
        w.valid(),
        w.covers(v),
    ensures
        lc_value(add_term(m, v, coeff), w) == (lc_value(m, w) + coeff * w.value(v)) % modulus(),
{
    let p = modulus() as int;
    let after = add_term(m, v, coeff);
    lemma_partial_sum_add_term(m, v, coeff, true, w.inputs, w.inputs.len());
    lemma_partial_sum_add_term(m, v, coeff, false, w.aux, w.aux.len());
    let i0 = partial_sum(m, true, w.inputs, w.inputs.len()) as int;
    let a0 = partial_sum(m, false, w.aux, w.aux.len()) as int;
    let i1 = partial_sum(after, true, w.inputs, w.inputs.len()) as int;
    let a1 = partial_sum(after, false, w.aux, w.aux.len()) as int;
    let ti = term_in(v, coeff, true, w.inputs, w.inputs.len()) as int;
    let ta = term_in(v, coeff, false, w.aux, w.aux.len()) as int;
    assert(ti + ta == coeff * w.value(v));
    lemma_congruent_sums(i1, i0 + ti, a1, a0 + ta, p);
    assert((i1 + a1) % p == (i0 + a0 + coeff * w.value(v)) % p);
    lemma_add_mod_noop(i0 + a0, (coeff * w.value(v)) as int, p);
    lemma_add_mod_noop(lc_value(m, w) as int, (coeff * w.value(v)) as int, p);
    vstd::arithmetic::div_mod::lemma_mod_twice(i0 + a0, p);
}

/// The linear combination `1 * v` has the value of `v`, in the field.
pub proof fn lemma_value_of_single(v: Var, w: Assignment)
    requires
        w.valid(),
        w.covers(v),
    ensures
        lc_value(single(v), w) == w.value(v) % modulus(),
        lc_value(single(one_var()), w) == 1,
{
    lemma_value_of_nothing(w);
    lemma_value_add_term(no_terms(), v, 1, w);
    lemma_value_add_term(no_terms(), one_var(), 1, w);
    lemma_small_mod(1, modulus());
    assert(1 * w.value(v) == w.value(v)) by (nonlinear_arith);
}

} // verus!
