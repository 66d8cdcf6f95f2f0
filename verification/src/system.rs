//! The constraint system that the gadgets append to, and what they read of the
//! numbers and bits allocated in it.
//!
//! The system itself, its numbers and its linear combinations are `bellperson`'s.
//! This module names what they hold, and states for each operation on them
//! what `bellperson`'s source shows of it.

use crate::field::{modulus, scalar_value};
use crate::labels::label_ok;
use bellperson::gadgets::boolean::AllocatedBit;
use bellperson::util_cs::test_cs::TestConstraintSystem;
use bellperson::{ConstraintSystem as Synthesis, Index, SynthesisError, Variable};
use blstrs::Scalar;
use vstd::prelude::*;

verus! {

#[verifier::external_type_specification]
#[verifier::external_body]
pub struct ExSynthesisError(SynthesisError);

#[verifier::external_type_specification]
#[verifier::external_body]
pub struct ExAllocatedBit(AllocatedBit);

/// The constraint system under construction: `bellperson`'s
/// `TestConstraintSystem` over the BLS12-381 scalar field, which keeps every
/// variable's assignment and every constraint, and so can be asked whether it
/// is satisfied.
#[verifier::external_body]
pub struct ConstraintSystem {
    pub inner: TestConstraintSystem<Scalar>,
}

/// A field element allocated as a variable: `bellperson`'s `AllocatedNum`.
#[verifier::external_body]
pub struct AllocatedNum {
    pub inner: bellperson::gadgets::num::AllocatedNum<Scalar>,
}

/// A weighted sum of variables: `bellperson`'s `LinearCombination`.
#[verifier::external_body]
pub struct LinearCombination {
    inner: bellperson::LinearCombination<Scalar>,
}

/// A variable of the system: a public input or an auxiliary variable, by its
/// index. Input 0 is the constant one.
#[derive(Clone, Copy, Debug)]
pub enum Var {
    Input(usize),
    Aux(usize),
}

/// The variable that is one in every assignment.
pub open spec fn one_var() -> Var {
    Var::Input(0)
}

/// A constraint `a * b = c` between three linear combinations, each given by
/// the coefficient of every variable that occurs in it.
pub struct Constraint {
    pub a: Map<Var, nat>,
    pub b: Map<Var, nat>,
    pub c: Map<Var, nat>,
}

/// The values assigned to the system's public inputs, in order of allocation.
pub uninterp spec fn cs_inputs(cs: ConstraintSystem) -> Seq<nat>;

/// The values assigned to the system's auxiliary variables, in order of
/// allocation.
pub uninterp spec fn cs_aux(cs: ConstraintSystem) -> Seq<nat>;

/// The system's constraints, in the order in which they were enforced.
pub uninterp spec fn cs_constraints(cs: ConstraintSystem) -> Seq<Constraint>;

/// The namespace in which the next object is created: its labels, outermost
/// first.
pub uninterp spec fn cs_scope(cs: ConstraintSystem) -> Seq<Seq<char>>;

/// The paths of all objects created so far, each split at its separators.
pub uninterp spec fn cs_paths(cs: ConstraintSystem) -> Set<Seq<Seq<char>>>;

/// The witness value that an allocated number carries, if any.
pub uninterp spec fn num_value(n: AllocatedNum) -> Option<nat>;

/// The variable of an allocated number.
pub uninterp spec fn num_var(n: AllocatedNum) -> Var;

/// The witness value that an allocated bit carries, if any.
pub uninterp spec fn bit_value(b: AllocatedBit) -> Option<bool>;

/// The variable of an allocated bit.
pub uninterp spec fn bit_var(b: AllocatedBit) -> Var;

/// The coefficients of a linear combination, by variable.
pub uninterp spec fn lc_terms(lc: LinearCombination) -> Map<Var, nat>;

/// Whether an error says that a witness value was needed and absent.
pub uninterp spec fn is_assignment_missing(e: SynthesisError) -> bool;

/// The witness values of a list of allocated numbers.
pub open spec fn num_values(nums: Seq<AllocatedNum>) -> Seq<Option<nat>> {
    Seq::new(nums.len(), |i: int| num_value(nums[i]))
}

/// The witness values of a list of allocated bits.
pub open spec fn bit_values(bits: Seq<AllocatedBit>) -> Seq<Option<bool>> {
    Seq::new(bits.len(), |i: int| bit_value(bits[i]))
}

/// Every value of the list is present.
pub open spec fn all_some<T>(values: Seq<Option<T>>) -> bool {
    forall|i: int| 0 <= i < values.len() ==> (#[trigger] values[i]) is Some
}

/// The values of a list in which every value is present.
pub open spec fn unwrapped<T>(values: Seq<Option<T>>) -> Seq<T> {
    Seq::new(values.len(), |i: int| values[i]->Some_0)
}

/// A linear combination after `coeff * var` was added to it.
pub open spec fn add_term(m: Map<Var, nat>, var: Var, coeff: nat) -> Map<Var, nat> {
    if m.dom().contains(var) {
        m.insert(var, (m[var] + coeff) % modulus())
    } else {
        m.insert(var, coeff)
    }
}

/// The linear combination without terms.
pub open spec fn no_terms() -> Map<Var, nat> {
    Map::empty()
}

/// The linear combination `1 * var`.
pub open spec fn single(var: Var) -> Map<Var, nat> {
    add_term(no_terms(), var, 1)
}

/// The constraint `x * y = z` between three variables.
pub open spec fn product_constraint(x: Var, y: Var, z: Var) -> Constraint {
    Constraint { a: single(x), b: single(y), c: single(z) }
}

/// Whether `q` lies strictly below the namespace `scope`.
pub open spec fn below(scope: Seq<Seq<char>>, q: Seq<Seq<char>>) -> bool {
    q.len() > scope.len() && q.subrange(0, scope.len() as int) == scope
}

/// Whether `q` is the child `name` of the namespace `scope`, or lies below it.
pub open spec fn in_child(scope: Seq<Seq<char>>, q: Seq<Seq<char>>, name: Seq<char>) -> bool {
    below(scope, q) && q[scope.len() as int] == name
}

/// Nothing was created yet under the label `name` in the current namespace.
pub open spec fn name_free(cs: ConstraintSystem, name: Seq<char>) -> bool {
    forall|q: Seq<Seq<char>>| #[trigger]
        cs_paths(cs).contains(q) ==> !in_child(cs_scope(cs), q, name)
}

/// Nothing was created yet in the current namespace.
pub open spec fn namespace_unused(cs: ConstraintSystem) -> bool {
    forall|q: Seq<Seq<char>>| #[trigger] cs_paths(cs).contains(q) ==> !below(cs_scope(cs), q)
}

/// `longer` starts with `shorter`.
pub open spec fn extends<T>(shorter: Seq<T>, longer: Seq<T>) -> bool {
    &&& shorter.len() <= longer.len()
    &&& forall|i: int| 0 <= i < shorter.len() ==> longer[i] == shorter[i]
}

/// What no operation changes: the namespace and the inputs stay, and the
/// variables, constraints and paths only grow. The variables are held in a
/// `Vec`, so their number still fits a `usize`.
pub open spec fn grows(pre: ConstraintSystem, post: ConstraintSystem) -> bool {
    &&& cs_scope(post) == cs_scope(pre)
    &&& cs_inputs(post) == cs_inputs(pre)
    &&& extends(cs_aux(pre), cs_aux(post))
    &&& cs_aux(pre).len() <= usize::MAX ==> cs_aux(post).len() <= usize::MAX
    &&& extends(cs_constraints(pre), cs_constraints(post))
    &&& forall|q: Seq<Seq<char>>| #[trigger]
        cs_paths(pre).contains(q) ==> cs_paths(post).contains(q)
}

/// The system grew, and every new path is the child `name` of the current
/// namespace or lies below it.
pub open spec fn grows_in_child(pre: ConstraintSystem, post: ConstraintSystem, name: Seq<char>) -> bool {
    &&& grows(pre, post)
    &&& forall|q: Seq<Seq<char>>| #[trigger]
        cs_paths(post).contains(q) ==> cs_paths(pre).contains(q) || in_child(
            cs_scope(pre),
            q,
            name,
        )
}

/// The system grew, and every new path lies below the current namespace.
pub open spec fn grows_in_namespace(pre: ConstraintSystem, post: ConstraintSystem) -> bool {
    &&& grows(pre, post)
    &&& forall|q: Seq<Seq<char>>| #[trigger]
        cs_paths(post).contains(q) ==> cs_paths(pre).contains(q) || below(cs_scope(pre), q)
}

/// The system grew, and every new path is below the current namespace, under
/// one of the labels in `used`.
pub open spec fn grows_under(pre: ConstraintSystem, post: ConstraintSystem, used: Set<Seq<char>>) -> bool {
    &&& grows(pre, post)
    &&& forall|q: Seq<Seq<char>>| #[trigger]
        cs_paths(post).contains(q) ==> cs_paths(pre).contains(q) || (below(cs_scope(pre), q)
            && used.contains(q[cs_scope(pre).len() as int]))
}

/// The variable is one of this system's, and is assigned the value, where
/// there is one.
pub open spec fn assigned(cs: ConstraintSystem, var: Var, value: Option<nat>) -> bool {
    match var {
        Var::Input(i) => i < cs_inputs(cs).len() && (value is Some ==> cs_inputs(cs)[i as int]
            == value->Some_0),
        Var::Aux(i) => i < cs_aux(cs).len() && (value is Some ==> cs_aux(cs)[i as int]
            == value->Some_0),
    }
}

/// In a namespace that was unused, a label that no step has taken is free.
pub proof fn lemma_unused_label_is_free(
    pre: ConstraintSystem,
    cur: ConstraintSystem,
    used: Set<Seq<char>>,
    name: Seq<char>,
)
    requires
        namespace_unused(pre),
        grows_under(pre, cur, used),
        !used.contains(name),
    ensures
        name_free(cur, name),
{
}

/// A step under a label adds that label to those taken.
pub proof fn lemma_step(
    pre: ConstraintSystem,
    cur: ConstraintSystem,
    next: ConstraintSystem,
    used: Set<Seq<char>>,
    name: Seq<char>,
)
    requires
        grows_under(pre, cur, used),
        grows_in_child(cur, next, name),
    ensures
        grows_under(pre, next, used.insert(name)),
{
}

/// What grew under some labels grew under any set that holds them.
pub proof fn lemma_under_more(
    pre: ConstraintSystem,
    cur: ConstraintSystem,
    used: Set<Seq<char>>,
    more: Set<Seq<char>>,
)
    requires
        grows_under(pre, cur, used),
        used.subset_of(more),
    ensures
        grows_under(pre, cur, more),
{
}

/// Steps under labels stay in the namespace.
pub proof fn lemma_under_is_within(pre: ConstraintSystem, cur: ConstraintSystem, used: Set<Seq<char>>)
    requires
        grows_under(pre, cur, used),
    ensures
        grows_in_namespace(pre, cur),
{
}

/// A namespace that was just entered is unused.
pub proof fn lemma_entered_is_unused(pre: ConstraintSystem, cur: ConstraintSystem, name: Seq<char>)
    requires
        name_free(pre, name),
        cs_scope(cur) == cs_scope(pre).push(name),
        cs_paths(cur) == cs_paths(pre).insert(cs_scope(pre).push(name)),
    ensures
        namespace_unused(cur),
{
    let scope = cs_scope(pre);
    assert forall|q: Seq<Seq<char>>| #[trigger] cs_paths(cur).contains(q) implies !below(
        cs_scope(cur),
        q,
    ) by {
        if below(cs_scope(cur), q) {
            lemma_below_child(scope, name, q);
        }
    }
}

/// What lies below a child of a namespace lies in that child.
pub proof fn lemma_below_child(scope: Seq<Seq<char>>, name: Seq<char>, q: Seq<Seq<char>>)
    requires
        below(scope.push(name), q),
    ensures
        in_child(scope, q, name),
{
    let k = scope.len() as int;
    let head = q.subrange(0, k + 1);
    assert(head == scope.push(name));
    assert(q.subrange(0, k) =~= head.subrange(0, k));
    assert(head.subrange(0, k) =~= scope);
    assert(q[k] == head[k]);
}

/// What was done inside a child namespace, seen from the namespace around it.
pub proof fn lemma_left_child(
    pre: ConstraintSystem,
    entered: ConstraintSystem,
    done: ConstraintSystem,
    left: ConstraintSystem,
    name: Seq<char>,
)
    requires
        cs_scope(entered) == cs_scope(pre).push(name),
        cs_paths(entered) == cs_paths(pre).insert(cs_scope(pre).push(name)),
        cs_inputs(entered) == cs_inputs(pre),
        cs_aux(entered) == cs_aux(pre),
        cs_constraints(entered) == cs_constraints(pre),
        grows_in_namespace(entered, done),
        cs_scope(left) == cs_scope(done).drop_last(),
        cs_paths(left) == cs_paths(done),
        cs_inputs(left) == cs_inputs(done),
        cs_aux(left) == cs_aux(done),
        cs_constraints(left) == cs_constraints(done),
    ensures
        grows_in_child(pre, left, name),
{
    let scope = cs_scope(pre);
    assert(scope.push(name).drop_last() =~= scope);
    assert forall|q: Seq<Seq<char>>| #[trigger] cs_paths(pre).contains(q) implies cs_paths(
        left,
    ).contains(q) by {
        assert(cs_paths(entered).contains(q));
    }
    assert forall|q: Seq<Seq<char>>| #[trigger] cs_paths(left).contains(q) implies cs_paths(
        pre,
    ).contains(q) || in_child(scope, q, name) by {
        assert(cs_paths(done).contains(q));
        if !cs_paths(pre).contains(q) {
            if cs_paths(entered).contains(q) {
                assert(q == scope.push(name));
                assert(q.subrange(0, scope.len() as int) =~= scope);
            } else {
                lemma_below_child(scope, name, q);
            }
        }
    }
}

/// The paths of a new system: that of the constant one.
pub open spec fn root_paths() -> Set<Seq<Seq<char>>> {
    Set::empty().insert(seq!["ONE"@])
}

/// The inputs of a new system: the constant one.
pub open spec fn root_inputs() -> Seq<nat> {
    seq![1nat]
}

/// A new test system, by `TestConstraintSystem::new`. The contract claims
/// what its source shows: the one input is the constant one, registered at the
/// path "ONE"; there is no other variable, no constraint and no open
/// namespace.
#[verifier::external_body]
pub(crate) fn test_system() -> (r: ConstraintSystem)
    ensures
        cs_scope(r).len() == 0,
        cs_paths(r) == root_paths(),
        cs_inputs(r) == root_inputs(),
        cs_aux(r).len() == 0,
        cs_constraints(r).len() == 0,
{
    ConstraintSystem { inner: TestConstraintSystem::new() }
}

/// A new constraint system: it holds the constant one and nothing else, and
/// every label but "ONE" is free in it.
pub fn new_system() -> (r: ConstraintSystem)
    ensures
        cs_scope(r).len() == 0,
        cs_paths(r) == root_paths(),
        cs_inputs(r) == root_inputs(),
        cs_aux(r).len() == 0,
        cs_constraints(r).len() == 0,
        forall|label: Seq<char>| label != "ONE"@ ==> #[trigger] name_free(r, label),
{
    let r = test_system();
    proof {
        assert forall|label: Seq<char>| label != "ONE"@ implies #[trigger] name_free(r, label) by {
            assert forall|q: Seq<Seq<char>>| #[trigger] cs_paths(r).contains(q) implies !in_child(
                cs_scope(r),
                q,
                label,
            ) by {
                assert(q == seq!["ONE"@]);
                assert(q[0] == "ONE"@);
            }
        }
    }
    r
}

/// Opens the namespace `label` inside the current one, where nothing was
/// created under that label yet. The namespace that is entered is unused.
pub fn open_namespace(cs: &mut ConstraintSystem, label: &str)
    requires
        label_ok(label@),
        name_free(*old(cs), label@),
    ensures
        cs_scope(*final(cs)) == cs_scope(*old(cs)).push(label@),
        cs_paths(*final(cs)) == cs_paths(*old(cs)).insert(cs_scope(*old(cs)).push(label@)),
        cs_inputs(*final(cs)) == cs_inputs(*old(cs)),
        cs_aux(*final(cs)) == cs_aux(*old(cs)),
        cs_constraints(*final(cs)) == cs_constraints(*old(cs)),
        namespace_unused(*final(cs)),
{
    let ghost pre = *cs;
    proof {
        let path = cs_scope(pre).push(label@);
        assert(path.subrange(0, cs_scope(pre).len() as int) =~= cs_scope(pre));
        assert(in_child(cs_scope(pre), path, label@));
    }
    enter_namespace(cs, label);
    proof {
        lemma_entered_is_unused(pre, *cs, label@);
    }
}

/// Closes the innermost namespace.
pub fn close_namespace(cs: &mut ConstraintSystem)
    requires
        cs_scope(*old(cs)).len() > 0,
    ensures
        cs_scope(*final(cs)) == cs_scope(*old(cs)).drop_last(),
        cs_paths(*final(cs)) == cs_paths(*old(cs)),
        cs_inputs(*final(cs)) == cs_inputs(*old(cs)),
        cs_aux(*final(cs)) == cs_aux(*old(cs)),
        cs_constraints(*final(cs)) == cs_constraints(*old(cs)),
{
    leave_namespace(cs);
}

/// Opens the namespace `label` inside the current one, by
/// `ConstraintSystem::push_namespace` of the test system. The contract claims
/// what its source shows: the label's path is registered, and the label joins
/// the current namespace. It leaves out a label with a separator and a path
/// already taken, on which the system panics.
#[verifier::external_body]
pub(crate) fn enter_namespace(cs: &mut ConstraintSystem, label: &str)
    requires
        label_ok(label@),
        !cs_paths(*old(cs)).contains(cs_scope(*old(cs)).push(label@)),
    ensures
        cs_scope(*final(cs)) == cs_scope(*old(cs)).push(label@),
        cs_paths(*final(cs)) == cs_paths(*old(cs)).insert(cs_scope(*old(cs)).push(label@)),
        cs_inputs(*final(cs)) == cs_inputs(*old(cs)),
        cs_aux(*final(cs)) == cs_aux(*old(cs)),
        cs_constraints(*final(cs)) == cs_constraints(*old(cs)),
{
    cs.inner.push_namespace(|| label);
}

/// Closes the innermost namespace, by `ConstraintSystem::pop_namespace` of the
/// test system, which panics where none is open.
#[verifier::external_body]
pub(crate) fn leave_namespace(cs: &mut ConstraintSystem)
    requires
        cs_scope(*old(cs)).len() > 0,
    ensures
        cs_scope(*final(cs)) == cs_scope(*old(cs)).drop_last(),
        cs_paths(*final(cs)) == cs_paths(*old(cs)),
        cs_inputs(*final(cs)) == cs_inputs(*old(cs)),
        cs_aux(*final(cs)) == cs_aux(*old(cs)),
        cs_constraints(*final(cs)) == cs_constraints(*old(cs)),
{
    cs.inner.pop_namespace();
}

/// Allocates an auxiliary variable with the given witness value in the
/// namespace `label`, by `AllocatedNum::alloc`. The contract claims what its
/// source and the test system's `alloc` show: with a value, the variable is
/// the next auxiliary one and is assigned that value; without one, the error
/// is `AssignmentMissing` and no variable is added. The variables are held in
/// a `Vec`, so their number fits a `usize`.
#[verifier::external_body]
pub(crate) fn alloc_num(cs: &mut ConstraintSystem, label: &str, value: Option<Scalar>) -> (r: Result<
    AllocatedNum,
    SynthesisError,
>)
    requires
        label_ok(label@),
        name_free(*old(cs), label@),
    ensures
        grows_in_child(*old(cs), *final(cs), label@),
        cs_aux(*final(cs)).len() <= usize::MAX,
        cs_constraints(*final(cs)) == cs_constraints(*old(cs)),
        match value {
            Some(v) => r is Ok && num_value(r->Ok_0) == Some(scalar_value(v)) && num_var(r->Ok_0)
                == Var::Aux(cs_aux(*old(cs)).len() as usize) && cs_aux(*final(cs)) == cs_aux(
                *old(cs),
            ).push(scalar_value(v)),
            None => r is Err && is_assignment_missing(r->Err_0) && cs_aux(*final(cs)) == cs_aux(
                *old(cs),
            ),
        },
{
    let inner = bellperson::gadgets::num::AllocatedNum::alloc(
        cs.inner.namespace(|| label),
        || value.ok_or(SynthesisError::AssignmentMissing),
    )?;
    Ok(AllocatedNum { inner })
}

/// Enforces the constraint `a * b = c` under the label `label`, by
/// `ConstraintSystem::enforce` of the test system: the contract claims that
/// the constraint is appended and nothing else changes but the paths.
#[verifier::external_body]
pub(crate) fn enforce(
    cs: &mut ConstraintSystem,
    label: &str,
    a: LinearCombination,
    b: LinearCombination,
    c: LinearCombination,
)
    requires
        label_ok(label@),
        name_free(*old(cs), label@),
    ensures
        grows_in_child(*old(cs), *final(cs), label@),
        cs_inputs(*final(cs)) == cs_inputs(*old(cs)),
        cs_aux(*final(cs)) == cs_aux(*old(cs)),
        cs_constraints(*final(cs)) == cs_constraints(*old(cs)).push(
            (Constraint { a: lc_terms(a), b: lc_terms(b), c: lc_terms(c) }),
        ),
{
    cs.inner.enforce(|| label, |_| a.inner, |_| b.inner, |_| c.inner);
}

/// The empty linear combination, by `LinearCombination::zero`.
#[verifier::external_body]
pub(crate) fn lc_zero() -> (r: LinearCombination)
    ensures
        lc_terms(r) == no_terms(),
{
    LinearCombination { inner: bellperson::LinearCombination::zero() }
}

/// A linear combination with `coeff * var` added, by `LinearCombination`'s
/// `Add<(Scalar, Variable)>`: the contract claims what its source shows, that
/// the coefficient of a variable already there grows by `coeff`, and that a
/// new variable enters with `coeff`.
#[verifier::external_body]
pub(crate) fn lc_add_term(lc: LinearCombination, coeff: &Scalar, var: Var) -> (r: LinearCombination)
    ensures
        lc_terms(r) == add_term(lc_terms(lc), var, scalar_value(*coeff)),
{
    let index = match var {
        Var::Input(i) => Index::Input(i),
        Var::Aux(i) => Index::Aux(i),
    };
    LinearCombination { inner: lc.inner + (*coeff, Variable::new_unchecked(index)) }
}

/// The witness value of an allocated number, by `AllocatedNum::get_value`. A
/// field element's integer is below the field's order.
#[verifier::external_body]
pub(crate) fn num_get_value(n: &AllocatedNum) -> (r: Option<Scalar>)
    ensures
        match r {
            Some(s) => num_value(*n) == Some(scalar_value(s)) && scalar_value(s) < modulus(),
            None => num_value(*n) is None,
        },
{
    n.inner.get_value()
}

/// The variable of an allocated number, by `AllocatedNum::get_variable`.
#[verifier::external_body]
pub(crate) fn num_get_variable(n: &AllocatedNum) -> (r: Var)
    ensures
        r == num_var(*n),
{
    match n.inner.get_variable().get_unchecked() {
        Index::Input(i) => Var::Input(i),
        Index::Aux(i) => Var::Aux(i),
    }
}

/// The witness value of an allocated bit, by `AllocatedBit::get_value`.
#[verifier::external_body]
pub(crate) fn bit_get_value(b: &AllocatedBit) -> (r: Option<bool>)
    ensures
        r == bit_value(*b),
{
    b.get_value()
}

/// The variable of an allocated bit, by `AllocatedBit::get_variable`.
#[verifier::external_body]
pub(crate) fn bit_get_variable(b: &AllocatedBit) -> (r: Var)
    ensures
        r == bit_var(*b),
{
    match b.get_variable().get_unchecked() {
        Index::Input(i) => Var::Input(i),
        Index::Aux(i) => Var::Aux(i),
    }
}

/// The product of two allocated numbers in the namespace `label`, by
/// `AllocatedNum::mul`. The contract claims what its source shows: with both
/// values, the product is the next auxiliary variable, assigned the product of
/// the values, and the one constraint `a * b = product` is appended; without
/// them the error is `AssignmentMissing`, and no variable or constraint is
/// added.
#[verifier::external_body]
pub(crate) fn num_mul(cs: &mut ConstraintSystem, label: &str, a: &AllocatedNum, b: &AllocatedNum) -> (r:
    Result<AllocatedNum, SynthesisError>)
    requires
        label_ok(label@),
        name_free(*old(cs), label@),
    ensures
        grows_in_child(*old(cs), *final(cs), label@),
        cs_aux(*final(cs)).len() <= usize::MAX,
        match (num_value(*a), num_value(*b)) {
            (Some(x), Some(y)) => {
                &&& r is Ok
                &&& num_value(r->Ok_0) == Some((x * y) % modulus())
                &&& num_var(r->Ok_0) == Var::Aux(cs_aux(*old(cs)).len() as usize)
                &&& cs_aux(*final(cs)) == cs_aux(*old(cs)).push((x * y) % modulus())
                &&& cs_constraints(*final(cs)) == cs_constraints(*old(cs)).push(
                    product_constraint(num_var(*a), num_var(*b), num_var(r->Ok_0)),
                )
            },
            _ => {
                &&& r is Err
                &&& is_assignment_missing(r->Err_0)
                &&& cs_aux(*final(cs)) == cs_aux(*old(cs))
                &&& cs_constraints(*final(cs)) == cs_constraints(*old(cs))
            },
        },
{
    let inner = a.inner.mul(cs.inner.namespace(|| label), &b.inner)?;
    Ok(AllocatedNum { inner })
}

} // verus!
