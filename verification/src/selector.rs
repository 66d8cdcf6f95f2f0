//! The high-bit selector: of several candidate counts of high bits of a
//! challenge, it returns the number made of the count that a selector picks.

use crate::bits::{bit_vars, le_value, lemma_le_value_bound, lemma_modulus_bounds, pack, packing_constraint};
use crate::field::{field_add, field_from_u64, modulus, scalar_value, CAPACITY};
use crate::semantics::assignment_of;
use crate::labels::{
    family_free, indexed, indexed_label, label_ok, lemma_family_step, lemma_indexed_shape,
    starting_with,
};
use crate::system::{
    add_term, all_some, alloc_num, bit_get_value, bit_get_variable, bit_value,
    bit_values, bit_var, cs_aux, cs_constraints, cs_scope, enforce, enter_namespace, extends,
    grows_in_child, grows_in_namespace, grows_under, in_child, is_assignment_missing, lc_add_term,
    lc_terms, lc_zero, leave_namespace, lemma_entered_is_unused, lemma_left_child, lemma_step,
    lemma_under_is_within, lemma_under_more, lemma_unused_label_is_free, name_free,
    namespace_unused, no_terms, num_get_value, num_get_variable, num_value, num_var, one_var,
    product_constraint, single, unwrapped, AllocatedNum, Constraint, ConstraintSystem, Var,
};
use bellperson::gadgets::boolean::AllocatedBit;
use bellperson::SynthesisError;
use vstd::arithmetic::div_mod::lemma_small_mod;
use vstd::arithmetic::power2::lemma_pow2_strictly_increases;
use vstd::prelude::*;
use vstd::slice::slice_subrange;

verus! {

/// The `h` highest bits of a challenge.
pub open spec fn high_bits(c_bits: Seq<AllocatedBit>, h: nat) -> Seq<AllocatedBit> {
    c_bits.subrange(c_bits.len() - h, c_bits.len() as int)
}

/// The number that the `h` highest bits of a challenge stand for, where they
/// carry values.
pub open spec fn high_value(c_bits: Seq<AllocatedBit>, h: nat) -> nat {
    le_value(unwrapped(bit_values(high_bits(c_bits, h))))
}

/// The first `n` selector bits carry values, and so do the high bits that
/// each of them stands for.
pub open spec fn selection_known(
    c_bits: Seq<AllocatedBit>,
    select: Seq<AllocatedBit>,
    hs: Seq<usize>,
    n: nat,
) -> bool {
    forall|k: int|
        0 <= k < n ==> bit_value(#[trigger] select[k]) is Some && all_some(
            bit_values(high_bits(c_bits, hs[k] as nat)),
        )
}

/// The candidate at position `k` where its selector bit is set, else zero.
pub open spec fn selected_term(
    c_bits: Seq<AllocatedBit>,
    select: Seq<AllocatedBit>,
    hs: Seq<usize>,
    k: int,
) -> nat {
    if bit_value(select[k]) == Some(true) {
        high_value(c_bits, hs[k] as nat)
    } else {
        0
    }
}

/// The sum in the field of the first `n` candidates whose selector bits are
/// set.
pub open spec fn selected_sum(
    c_bits: Seq<AllocatedBit>,
    select: Seq<AllocatedBit>,
    hs: Seq<usize>,
    n: nat,
) -> nat
    decreases n,
{
    if n == 0 {
        0
    } else {
        (selected_sum(c_bits, select, hs, (n - 1) as nat) + selected_term(
            c_bits,
            select,
            hs,
            n - 1,
        )) % modulus()
    }
}

/// The sum of the variables of the first `n` scaled candidates, of which the
/// one at position `k` is the auxiliary variable `first + 2 * k + 1`.
pub open spec fn scaled_sum(first: nat, n: nat) -> Map<Var, nat>
    decreases n,
{
    if n == 0 {
        no_terms()
    } else {
        add_term(scaled_sum(first, (n - 1) as nat), Var::Aux((first + 2 * (n - 1) + 1) as usize), 1)
    }
}

/// What the selector leaves in the system after `n` candidates. For the
/// candidate at position `k` there are two auxiliary variables, the packed
/// high bits and that number scaled by the selector bit, each with its
/// constraint.
pub open spec fn candidates_allocated(
    pre: ConstraintSystem,
    post: ConstraintSystem,
    c_bits: Seq<AllocatedBit>,
    select: Seq<AllocatedBit>,
    hs: Seq<usize>,
    n: nat,
) -> bool {
    let a0 = cs_aux(pre).len();
    let c0 = cs_constraints(pre).len();
    &&& cs_aux(post).len() >= a0 + 2 * n
    &&& cs_constraints(post).len() >= c0 + 2 * n
    &&& extends(cs_aux(pre), cs_aux(post))
    &&& extends(cs_constraints(pre), cs_constraints(post))
    &&& forall|k: int|
        0 <= k < n ==> {
            &&& (#[trigger] cs_aux(post)[a0 + 2 * k]) == high_value(c_bits, hs[k] as nat)
            &&& cs_aux(post)[a0 + 2 * k + 1] == selected_term(c_bits, select, hs, k)
        }
    &&& forall|k: int|
        0 <= k < n ==> {
            &&& (#[trigger] cs_constraints(post)[c0 + 2 * k]) == packing_constraint(
                bit_vars(high_bits(c_bits, hs[k] as nat)),
                Var::Aux((a0 + 2 * k) as usize),
            )
            &&& cs_constraints(post)[c0 + 2 * k + 1] == product_constraint(
                Var::Aux((a0 + 2 * k) as usize),
                bit_var(select[k]),
                Var::Aux((a0 + 2 * k + 1) as usize),
            )
        }
}

/// What a successful selection leaves in the system: the candidates, and the
/// result as the last auxiliary variable, constrained to be the sum of the
/// scaled candidates.
pub open spec fn selects(
    pre: ConstraintSystem,
    post: ConstraintSystem,
    result: AllocatedNum,
    c_bits: Seq<AllocatedBit>,
    select: Seq<AllocatedBit>,
    hs: Seq<usize>,
) -> bool {
    let a0 = cs_aux(pre).len();
    let c0 = cs_constraints(pre).len();
    let n = hs.len();
    &&& candidates_allocated(pre, post, c_bits, select, hs, n)
    &&& cs_aux(post).len() == a0 + 2 * n + 1
    &&& cs_constraints(post).len() == c0 + 2 * n + 1
    &&& num_value(result) == Some(selected_sum(c_bits, select, hs, n))
    &&& num_var(result) == Var::Aux((a0 + 2 * n) as usize)
    &&& cs_aux(post)[(a0 + 2 * n) as int] == selected_sum(c_bits, select, hs, n)
    &&& cs_constraints(post)[(c0 + 2 * n) as int] == (Constraint {
        a: scaled_sum(a0, n),
        b: single(one_var()),
        c: single(Var::Aux((a0 + 2 * n) as usize)),
    })
}

/// At most 254 bits stand for a number below the field's order.
pub proof fn lemma_high_value_fits(bits: Seq<bool>)
    requires
        bits.len() <= 254,
    ensures
        le_value(bits) < modulus(),
        le_value(bits) % modulus() == le_value(bits),
{
    lemma_le_value_bound(bits);
    lemma_modulus_bounds();
    if bits.len() < 254 {
        lemma_pow2_strictly_increases(bits.len(), 254);
    }
    lemma_small_mod(le_value(bits), modulus());
}

/// Candidates stay allocated while the system grows.
proof fn lemma_candidates_persist(
    pre: ConstraintSystem,
    mid: ConstraintSystem,
    post: ConstraintSystem,
    c_bits: Seq<AllocatedBit>,
    select: Seq<AllocatedBit>,
    hs: Seq<usize>,
    n: nat,
)
    requires
        candidates_allocated(pre, mid, c_bits, select, hs, n),
        extends(cs_aux(mid), cs_aux(post)),
        extends(cs_constraints(mid), cs_constraints(post)),
    ensures
        candidates_allocated(pre, post, c_bits, select, hs, n),
{
    let a0 = cs_aux(pre).len();
    let c0 = cs_constraints(pre).len();
    assert forall|k: int| 0 <= k < n implies {
        &&& (#[trigger] cs_aux(post)[a0 + 2 * k]) == high_value(c_bits, hs[k] as nat)
        &&& cs_aux(post)[a0 + 2 * k + 1] == selected_term(c_bits, select, hs, k)
    } by {
        assert(cs_aux(mid)[a0 + 2 * k] == high_value(c_bits, hs[k] as nat));
    }
    assert forall|k: int| 0 <= k < n implies {
        &&& (#[trigger] cs_constraints(post)[c0 + 2 * k]) == packing_constraint(
            bit_vars(high_bits(c_bits, hs[k] as nat)),
            Var::Aux((a0 + 2 * k) as usize),
        )
        &&& cs_constraints(post)[c0 + 2 * k + 1] == product_constraint(
            Var::Aux((a0 + 2 * k) as usize),
            bit_var(select[k]),
            Var::Aux((a0 + 2 * k + 1) as usize),
        )
    } by {
        assert(cs_constraints(mid)[c0 + 2 * k] == packing_constraint(
            bit_vars(high_bits(c_bits, hs[k] as nat)),
            Var::Aux((a0 + 2 * k) as usize),
        ));
    }
}

/// One more candidate, allocated after those before it.
proof fn lemma_candidate_added(
    pre: ConstraintSystem,
    mid: ConstraintSystem,
    post: ConstraintSystem,
    c_bits: Seq<AllocatedBit>,
    select: Seq<AllocatedBit>,
    hs: Seq<usize>,
    n: nat,
)
    requires
        n < hs.len(),
        candidates_allocated(pre, mid, c_bits, select, hs, n),
        cs_aux(mid).len() == cs_aux(pre).len() + 2 * n,
        cs_constraints(mid).len() == cs_constraints(pre).len() + 2 * n,
        cs_aux(post) == cs_aux(mid).push(high_value(c_bits, hs[n as int] as nat)).push(
            selected_term(c_bits, select, hs, n as int),
        ),
        cs_constraints(post) == cs_constraints(mid).push(
            packing_constraint(
                bit_vars(high_bits(c_bits, hs[n as int] as nat)),
                Var::Aux((cs_aux(pre).len() + 2 * n) as usize),
            ),
        ).push(
            product_constraint(
                Var::Aux((cs_aux(pre).len() + 2 * n) as usize),
                bit_var(select[n as int]),
                Var::Aux((cs_aux(pre).len() + 2 * n + 1) as usize),
            ),
        ),
    ensures
        candidates_allocated(pre, post, c_bits, select, hs, n + 1),
{
    lemma_candidates_persist(pre, mid, post, c_bits, select, hs, n);
    let a0 = cs_aux(pre).len();
    let c0 = cs_constraints(pre).len();
    assert forall|k: int| 0 <= k < n + 1 implies {
        &&& (#[trigger] cs_aux(post)[a0 + 2 * k]) == high_value(c_bits, hs[k] as nat)
        &&& cs_aux(post)[a0 + 2 * k + 1] == selected_term(c_bits, select, hs, k)
    } by {
        if k < n {
            assert(cs_aux(mid)[a0 + 2 * k] == high_value(c_bits, hs[k] as nat));
        }
    }
    assert forall|k: int| 0 <= k < n + 1 implies {
        &&& (#[trigger] cs_constraints(post)[c0 + 2 * k]) == packing_constraint(
            bit_vars(high_bits(c_bits, hs[k] as nat)),
            Var::Aux((a0 + 2 * k) as usize),
        )
        &&& cs_constraints(post)[c0 + 2 * k + 1] == product_constraint(
            Var::Aux((a0 + 2 * k) as usize),
            bit_var(select[k]),
            Var::Aux((a0 + 2 * k + 1) as usize),
        )
    } by {
        if k < n {
            assert(cs_constraints(mid)[c0 + 2 * k] == packing_constraint(
                bit_vars(high_bits(c_bits, hs[k] as nat)),
                Var::Aux((a0 + 2 * k) as usize),
            ));
        }
    }
}

proof fn lemma_selector_labels()
    ensures
        label_ok("high bits "@),
        "high bits "@.len() > 0,
        "high bits "@[0] == 'h',
        label_ok("pack"@),
        label_ok("scaled"@),
        label_ok("scaled == packed * selector"@),
        "pack"@ != "scaled"@,
        "pack"@ != "scaled == packed * selector"@,
        "scaled"@ != "scaled == packed * selector"@,
        label_ok("c_high_selected"@),
        label_ok("c_high_selected == dot(c_highs, h_select_bits)"@),
        "c_high_selected"@ != "c_high_selected == dot(c_highs, h_select_bits)"@,
        "c_high_selected"@[0] == 'c',
        "c_high_selected == dot(c_highs, h_select_bits)"@[0] == 'c',
{
    reveal_strlit("high bits ");
    reveal_strlit("pack");
    reveal_strlit("scaled");
    reveal_strlit("scaled == packed * selector");
    reveal_strlit("c_high_selected");
    reveal_strlit("c_high_selected == dot(c_highs, h_select_bits)");
    assert("pack"@.len() != "scaled"@.len());
    assert("pack"@.len() != "scaled == packed * selector"@.len());
    assert("scaled"@.len() != "scaled == packed * selector"@.len());
    assert("c_high_selected"@.len() != "c_high_selected == dot(c_highs, h_select_bits)"@.len());
}

/// The label of the namespace of the candidate at the given position.
pub open spec fn candidate_label(k: nat) -> Seq<char> {
    indexed("high bits "@, k)
}

/// Whether the lists of counts and of selector bits have one length and are
/// not empty, and no count exceeds the challenge's length or the field's
/// capacity: what [`get_challenge_high_bits`] asks of its inputs.
pub fn counts_fit(challenge_len: usize, selector_len: usize, hs: &[usize]) -> (r: bool)
    ensures
        r == (selector_len == hs@.len() && hs@.len() > 0 && forall|k: int|
            0 <= k < hs@.len() ==> hs@[k] <= challenge_len && hs@[k] <= 254),
{
    if selector_len != hs.len() || hs.len() == 0 {
        return false;
    }
    let mut k: usize = 0;
    while k < hs.len()
        invariant
            k <= hs@.len(),
            forall|i: int| 0 <= i < k ==> hs@[i] <= challenge_len && hs@[i] <= 254,
        decreases hs@.len() - k,
    {
        if hs[k] > challenge_len || hs[k] > CAPACITY {
            return false;
        }
        k = k + 1;
    }
    true
}

/// One candidate: packs the `h` high bits of the challenge and scales the
/// number by the selector bit, in a namespace of its own.
fn scaled_candidate(
    cs: &mut ConstraintSystem,
    k: usize,
    c_bits: &[AllocatedBit],
    selector: &AllocatedBit,
    h: usize,
) -> (r: Result<AllocatedNum, SynthesisError>)
    requires
        name_free(*old(cs), candidate_label(k as nat)),
        h <= c_bits@.len(),
        h <= 254,
    ensures
        grows_in_child(*old(cs), *final(cs), candidate_label(k as nat)),
        bit_value(*selector) is Some && all_some(bit_values(high_bits(c_bits@, h as nat))) ==> {
            let a0 = cs_aux(*old(cs)).len();
            let term = if bit_value(*selector) == Some(true) {
                high_value(c_bits@, h as nat)
            } else {
                0
            };
            &&& r is Ok
            &&& num_value(r->Ok_0) == Some(term)
            &&& num_var(r->Ok_0) == Var::Aux((a0 + 1) as usize)
            &&& term < modulus()
            &&& cs_aux(*final(cs)) == cs_aux(*old(cs)).push(high_value(c_bits@, h as nat)).push(term)
            &&& cs_constraints(*final(cs)) == cs_constraints(*old(cs)).push(
                packing_constraint(bit_vars(high_bits(c_bits@, h as nat)), Var::Aux(a0 as usize)),
            ).push(
                product_constraint(
                    Var::Aux(a0 as usize),
                    bit_var(*selector),
                    Var::Aux((a0 + 1) as usize),
                ),
            )
        },
        !(bit_value(*selector) is Some && all_some(bit_values(high_bits(c_bits@, h as nat))))
            ==> r is Err && is_assignment_missing(r->Err_0),
{
    let ghost pre = *cs;
    let label = indexed_label("high bits ", k);
    proof {
        lemma_selector_labels();
        lemma_indexed_shape("high bits "@, k as nat);
        let path = cs_scope(pre).push(label@);
        assert(path.subrange(0, cs_scope(pre).len() as int) =~= cs_scope(pre));
        assert(in_child(cs_scope(pre), path, label@));
    }
    enter_namespace(cs, label.as_str());
    let ghost entered = *cs;
    proof {
        lemma_entered_is_unused(pre, entered, label@);
        lemma_unused_label_is_free(entered, entered, Set::empty(), "pack"@);
    }
    let top = slice_subrange(c_bits, c_bits.len() - h, c_bits.len());
    let packed = pack(cs, "pack", top);
    let ghost after_pack = *cs;
    let ghost used1 = Set::<Seq<char>>::empty().insert("pack"@);
    proof {
        lemma_step(entered, entered, after_pack, Set::empty(), "pack"@);
        lemma_unused_label_is_free(entered, after_pack, used1, "scaled"@);
        lemma_under_is_within(entered, after_pack, used1);
        if all_some(bit_values(top@)) {
            lemma_high_value_fits(unwrapped(bit_values(top@)));
        }
    }
    match packed {
        Err(e) => {
            leave_namespace(cs);
            proof {
                lemma_left_child(pre, entered, after_pack, *cs, label@);
            }
            Err(e)
        },
        Ok(c_high) => {
            let value = match bit_get_value(selector) {
                None => None,
                Some(true) => num_get_value(&c_high),
                Some(false) => Some(field_from_u64(0)),
            };
            let scaled = alloc_num(cs, "scaled", value);
            let ghost after_alloc = *cs;
            let ghost used2 = used1.insert("scaled"@);
            proof {
                lemma_step(entered, after_pack, after_alloc, used1, "scaled"@);
                lemma_unused_label_is_free(
                    entered,
                    after_alloc,
                    used2,
                    "scaled == packed * selector"@,
                );
                lemma_under_is_within(entered, after_alloc, used2);
            }
            match scaled {
                Err(e) => {
                    leave_namespace(cs);
                    proof {
                        lemma_left_child(pre, entered, after_alloc, *cs, label@);
                    }
                    Err(e)
                },
                Ok(c_high_or_zero) => {
                    let one = field_from_u64(1);
                    let a = lc_add_term(lc_zero(), &one, num_get_variable(&c_high));
                    let b = lc_add_term(lc_zero(), &one, bit_get_variable(selector));
                    let c = lc_add_term(lc_zero(), &one, num_get_variable(&c_high_or_zero));
                    enforce(cs, "scaled == packed * selector", a, b, c);
                    let ghost done = *cs;
                    proof {
                        lemma_step(
                            entered,
                            after_alloc,
                            done,
                            used2,
                            "scaled == packed * selector"@,
                        );
                        lemma_under_is_within(
                            entered,
                            done,
                            used2.insert("scaled == packed * selector"@),
                        );
                    }
                    leave_namespace(cs);
                    proof {
                        lemma_left_child(pre, entered, done, *cs, label@);
                    }
                    Ok(c_high_or_zero)
                },
            }
        },
    }
}

/// Returns the number made of the `hs[i]` highest bits of the challenge,
/// where `i` is the position at which the selector is set.
///
/// For each position the high bits are packed, least significant bit first,
/// and the number is scaled by the selector bit; the result is the sum of the
/// scaled numbers. That the selector is set at exactly one position is left
/// to the caller, and is not enforced.
///
/// The current namespace must be unused. The lists of counts and of selector
/// bits have one length and are not empty, and no count exceeds the
/// challenge's length or the field's capacity. The call succeeds exactly where
/// every selector bit and every bit that is packed carries a value.
pub fn get_challenge_high_bits(
    cs: &mut ConstraintSystem,
    c_bits: &[AllocatedBit],
    h_select_bits: &[AllocatedBit],
    hs: &[usize],
) -> (r: Result<AllocatedNum, SynthesisError>)
    requires
        namespace_unused(*old(cs)),
        h_select_bits@.len() == hs@.len(),
        hs@.len() > 0,
        forall|k: int| 0 <= k < hs@.len() ==> hs@[k] <= c_bits@.len() && hs@[k] <= 254,
    ensures
        grows_in_namespace(*old(cs), *final(cs)),
        assignment_of(*old(cs)).valid() ==> assignment_of(*final(cs)).valid(),
        selection_known(c_bits@, h_select_bits@, hs@, hs@.len()) ==> r is Ok && selects(
            *old(cs),
            *final(cs),
            r->Ok_0,
            c_bits@,
            h_select_bits@,
            hs@,
        ),
        !selection_known(c_bits@, h_select_bits@, hs@, hs@.len()) ==> r is Err
            && is_assignment_missing(r->Err_0),
{
    let ghost pre = *cs;
    let ghost a0 = cs_aux(pre).len();
    let ghost c0 = cs_constraints(pre).len();
    let ghost mut used: Set<Seq<char>> = Set::empty();
    let n = hs.len();
    let one = field_from_u64(1);
    let mut sum = field_from_u64(0);
    let mut lc = lc_zero();
    let mut k: usize = 0;
    proof {
        lemma_selector_labels();
        lemma_modulus_bounds();
        lemma_small_mod(0, modulus());
    }
    while k < n
        invariant
            k <= n,
            n == hs@.len(),
            n == h_select_bits@.len(),
            forall|i: int| 0 <= i < hs@.len() ==> hs@[i] <= c_bits@.len() && hs@[i] <= 254,
            pre == *old(cs),
            a0 == cs_aux(pre).len(),
            c0 == cs_constraints(pre).len(),
            namespace_unused(pre),
            grows_under(pre, *cs, used),
            family_free(used, "high bits "@, k as nat),
            used.subset_of(starting_with('h')),
            label_ok("high bits "@),
            "high bits "@.len() > 0,
            "high bits "@[0] == 'h',
            selection_known(c_bits@, h_select_bits@, hs@, k as nat),
            candidates_allocated(pre, *cs, c_bits@, h_select_bits@, hs@, k as nat),
            cs_aux(*cs).len() == a0 + 2 * k,
            cs_constraints(*cs).len() == c0 + 2 * k,
            scalar_value(one) == 1,
            scalar_value(sum) == selected_sum(c_bits@, h_select_bits@, hs@, k as nat),
            lc_terms(lc) == scaled_sum(a0, k as nat),
        decreases n - k,
    {
        let ghost before = *cs;
        proof {
            lemma_family_step(used, "high bits "@, k as nat);
            lemma_unused_label_is_free(pre, before, used, candidate_label(k as nat));
        }
        let term = scaled_candidate(cs, k, c_bits, &h_select_bits[k], hs[k]);
        proof {
            lemma_step(pre, before, *cs, used, candidate_label(k as nat));
            lemma_indexed_shape("high bits "@, k as nat);
            used = used.insert(candidate_label(k as nat));
            lemma_under_more(pre, *cs, used, starting_with('h'));
            lemma_under_is_within(pre, *cs, starting_with('h'));
        }
        match term {
            Err(e) => {
                return Err(e);
            },
            Ok(c_high_or_zero) => {
                let value = num_get_value(&c_high_or_zero);
                match value {
                    None => {
                        proof {
                            assert(false);
                        }
                    },
                    Some(v) => {
                        sum = field_add(&sum, &v);
                    },
                }
                lc = lc_add_term(lc, &one, num_get_variable(&c_high_or_zero));
                proof {
                    lemma_candidate_added(
                        pre,
                        before,
                        *cs,
                        c_bits@,
                        h_select_bits@,
                        hs@,
                        k as nat,
                    );
                }
            },
        }
        k = k + 1;
    }
    let ghost looped = *cs;
    proof {
        lemma_under_more(pre, looped, used, starting_with('h'));
        lemma_unused_label_is_free(pre, looped, starting_with('h'), "c_high_selected"@);
    }
    let selected = alloc_num(cs, "c_high_selected", Some(sum));
    let ghost allocated = *cs;
    proof {
        lemma_step(pre, looped, allocated, starting_with('h'), "c_high_selected"@);
        lemma_unused_label_is_free(
            pre,
            allocated,
            starting_with('h').insert("c_high_selected"@),
            "c_high_selected == dot(c_highs, h_select_bits)"@,
        );
    }
    match selected {
        Err(e) => {
            proof {
                assert(false);
            }
            Err(e)
        },
        Ok(c_high_selected) => {
            let b = lc_add_term(lc_zero(), &one, Var::Input(0));
            let c = lc_add_term(lc_zero(), &one, num_get_variable(&c_high_selected));
            enforce(cs, "c_high_selected == dot(c_highs, h_select_bits)", lc, b, c);
            proof {
                lemma_candidates_persist(pre, looped, *cs, c_bits@, h_select_bits@, hs@, n as nat);
                lemma_step(
                    pre,
                    allocated,
                    *cs,
                    starting_with('h').insert("c_high_selected"@),
                    "c_high_selected == dot(c_highs, h_select_bits)"@,
                );
                lemma_under_is_within(
                    pre,
                    *cs,
                    starting_with('h').insert("c_high_selected"@).insert(
                        "c_high_selected == dot(c_highs, h_select_bits)"@,
                    ),
                );
            }
            Ok(c_high_selected)
        },
    }
}

} // verus!
