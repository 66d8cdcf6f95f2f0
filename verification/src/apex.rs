//! The apex tree verifier: it reduces a batch of apex leaves to their root by
//! a binary hash tree, and proves that root included in the tree above it.

use crate::hash::{pair, poseidon, poseidon_hash2};
use crate::labels::{
    family_free, indexed_label, label_ok, lemma_family_step, lemma_indexed_shape,
    starting_with,
};
use crate::merkle::{
    equality_constraint, path_known, por_no_challenge_input, proves_inclusion, sibling_counts,
    TreeShape,
};
use crate::semantics::assignment_of;
use crate::system::{
    all_some, assigned, bit_values, cs_aux, cs_constraints, cs_inputs, cs_scope, enter_namespace,
    extends, grows, grows_in_namespace, grows_under, in_child, leave_namespace,
    lemma_entered_is_unused, lemma_left_child, lemma_step, lemma_under_is_within,
    is_assignment_missing, lemma_under_more, lemma_unused_label_is_free, name_free,
    namespace_unused, num_value,
    num_values, num_var, unwrapped, AllocatedNum, ConstraintSystem,
};
use bellperson::gadgets::boolean::AllocatedBit;
use bellperson::SynthesisError;
use vstd::prelude::*;

verus! {

/// Whether a number is a power of two.
pub open spec fn is_pow2(n: nat) -> bool
    decreases n,
{
    n == 1 || (n > 1 && n % 2 == 0 && is_pow2(n / 2))
}

/// Whether a number is a power of two.
pub fn is_power_of_two(n: usize) -> (r: bool)
    ensures
        r == is_pow2(n as nat),
{
    if n == 0 {
        return false;
    }
    let mut m = n;
    while m > 1 && m % 2 == 0
        invariant
            m >= 1,
            is_pow2(n as nat) == is_pow2(m as nat),
        decreases m,
    {
        m = m / 2;
    }
    m == 1
}

/// The row above a row of a binary hash tree: the hashes of its pairs.
pub open spec fn pair_up(row: Seq<nat>) -> Seq<nat> {
    Seq::new(row.len() / 2, |i: int| poseidon(pair(row[2 * i], row[2 * i + 1])))
}

/// The root of the binary hash tree over a batch of leaves: adjacent leaves
/// are hashed in pairs, row by row, until one value is left.
pub open spec fn apex_reduction(leaves: Seq<nat>) -> nat
    decreases leaves.len(),
{
    if leaves.len() <= 1 {
        leaves[0]
    } else {
        apex_reduction(pair_up(leaves))
    }
}

/// The shape of the tree above the apex: binary, without sub-tree or
/// top-tree level.
pub fn apex_tree_shape() -> (shape: TreeShape)
    ensures
        shape.base_arity == 2,
        shape.sub_arity == 0,
        shape.top_arity == 0,
        shape.valid(),
{
    TreeShape { base_arity: 2, sub_arity: 0, top_arity: 0 }
}

/// A variable that is assigned its value stays so while the system grows.
pub proof fn lemma_assigned_persists(pre: ConstraintSystem, post: ConstraintSystem, n: AllocatedNum)
    requires
        assigned(pre, num_var(n), num_value(n)),
        cs_inputs(post) == cs_inputs(pre),
        extends(cs_aux(pre), cs_aux(post)),
    ensures
        assigned(post, num_var(n), num_value(n)),
{
}

proof fn lemma_apex_labels()
    ensures
        label_ok("pair "@),
        "pair "@.len() > 0,
        "pair "@[0] == 'p',
        label_ok("apex row "@),
        "apex row "@.len() > 0,
        "apex row "@[0] == 'a',
        label_ok("apex tree"@),
        label_ok("partition-tree por"@),
        "apex tree"@ != "partition-tree por"@,
{
    reveal_strlit("pair ");
    reveal_strlit("apex row ");
    reveal_strlit("apex tree");
    reveal_strlit("partition-tree por");
    assert("apex tree"@.len() != "partition-tree por"@.len());
}

/// One row of the apex tree: hashes the pairs of `row`.
fn hash_row(cs: &mut ConstraintSystem, row: &Vec<AllocatedNum>) -> (r: Result<
    Vec<AllocatedNum>,
    SynthesisError,
>)
    requires
        namespace_unused(*old(cs)),
        row@.len() % 2 == 0,
    ensures
        grows_in_namespace(*old(cs), *final(cs)),
        r is Ok <==> all_some(num_values(row@)),
        r is Err ==> is_assignment_missing(r->Err_0),
        r is Ok ==> r->Ok_0@.len() == row@.len() / 2,
        r is Ok ==> forall|i: int|
            0 <= i < r->Ok_0@.len() ==> assigned(
                *final(cs),
                num_var(#[trigger] r->Ok_0@[i]),
                num_value(r->Ok_0@[i]),
            ),
        r is Ok && all_some(num_values(row@)) ==> all_some(num_values(r->Ok_0@)) && unwrapped(
            num_values(r->Ok_0@),
        ) == pair_up(unwrapped(num_values(row@))),
{
    let ghost pre = *cs;
    let ghost mut used: Set<Seq<char>> = Set::empty();
    let len = row.len();
    let pairs = len / 2;
    let mut above: Vec<AllocatedNum> = Vec::new();
    let mut i: usize = 0;
    proof {
        lemma_apex_labels();
    }
    while i < pairs
        invariant
            i <= pairs,
            len == row@.len(),
            pairs == len / 2,
            row@.len() % 2 == 0,
            pre == *old(cs),
            namespace_unused(pre),
            grows_under(pre, *cs, used),
            family_free(used, "pair "@, i as nat),
            used.subset_of(starting_with('p')),
            label_ok("pair "@),
            "pair "@.len() > 0,
            "pair "@[0] == 'p',
            above@.len() == i,
            forall|j: int| 0 <= j < 2 * i ==> num_value(#[trigger] row@[j]) is Some,
            forall|j: int|
                0 <= j < i ==> assigned(*cs, num_var(#[trigger] above@[j]), num_value(above@[j])),
            all_some(num_values(row@)) ==> forall|j: int|
                0 <= j < i ==> num_value(#[trigger] above@[j]) == Some(
                    poseidon(
                        pair(
                            num_value(row@[2 * j])->Some_0,
                            num_value(row@[2 * j + 1])->Some_0,
                        ),
                    ),
                ),
        decreases pairs - i,
    {
        let ghost before = *cs;
        let label = indexed_label("pair ", i);
        proof {
            lemma_family_step(used, "pair "@, i as nat);
            lemma_indexed_shape("pair "@, i as nat);
            lemma_unused_label_is_free(pre, before, used, label@);
            if all_some(num_values(row@)) {
                assert(num_values(row@)[2 * i] is Some);
                assert(num_values(row@)[2 * i + 1] is Some);
            }
        }
        let hashed = poseidon_hash2(cs, label.as_str(), &row[2 * i], &row[2 * i + 1]);
        proof {
            lemma_step(pre, before, *cs, used, label@);
            used = used.insert(label@);
            lemma_under_more(pre, *cs, used, starting_with('p'));
            lemma_under_is_within(pre, *cs, starting_with('p'));
            assert forall|j: int| 0 <= j < i implies assigned(
                *cs,
                num_var(#[trigger] above@[j]),
                num_value(above@[j]),
            ) by {
                lemma_assigned_persists(before, *cs, above@[j]);
            }
        }
        match hashed {
            Err(e) => {
                return Err(e);
            },
            Ok(parent) => {
                above.push(parent);
            },
        }
        i = i + 1;
    }
    proof {
        lemma_under_more(pre, *cs, used, starting_with('p'));
        lemma_under_is_within(pre, *cs, starting_with('p'));
        assert forall|j: int| 0 <= j < row@.len() implies (#[trigger] num_values(row@)[j])
            is Some by {
            assert(num_value(row@[j]) is Some);
        }
        assert(unwrapped(num_values(above@)) =~= pair_up(unwrapped(num_values(row@))));
    }
    Ok(above)
}

/// Reduces a batch of apex leaves to its root: adjacent numbers are hashed in
/// pairs, row by row, until one is left. A batch of one is its own root.
///
/// The current namespace must be unused, and the batch's size a power of two.
/// A batch of more than one succeeds exactly where every leaf carries a value.
pub fn apex_root(cs: &mut ConstraintSystem, apex_leafs: Vec<AllocatedNum>) -> (r: Result<
    AllocatedNum,
    SynthesisError,
>)
    requires
        namespace_unused(*old(cs)),
        is_pow2(apex_leafs@.len()),
    ensures
        grows_in_namespace(*old(cs), *final(cs)),
        assignment_of(*old(cs)).valid() ==> assignment_of(*final(cs)).valid(),
        apex_leafs@.len() == 1 ==> r is Ok && r->Ok_0 == apex_leafs@[0] && cs_aux(*final(cs))
            == cs_aux(*old(cs)) && cs_constraints(*final(cs)) == cs_constraints(*old(cs)),
        apex_leafs@.len() > 1 ==> (r is Ok <==> all_some(num_values(apex_leafs@))),
        r is Err ==> is_assignment_missing(r->Err_0),
        r is Ok && apex_leafs@.len() > 1 ==> assigned(
            *final(cs),
            num_var(r->Ok_0),
            num_value(r->Ok_0),
        ),
        r is Ok && all_some(num_values(apex_leafs@)) ==> num_value(r->Ok_0) == Some(
            apex_reduction(unwrapped(num_values(apex_leafs@))),
        ),
{
    let ghost pre = *cs;
    let ghost leaves = apex_leafs@;
    let ghost known = all_some(num_values(leaves));
    let ghost goal = apex_reduction(unwrapped(num_values(leaves)));
    let ghost mut used: Set<Seq<char>> = Set::empty();
    let total = apex_leafs.len();
    let mut row = apex_leafs;
    let mut row_index: usize = 0;
    proof {
        lemma_apex_labels();
    }
    while row.len() > 1
        invariant
            is_pow2(row@.len()),
            pre == *old(cs),
            namespace_unused(pre),
            grows_under(pre, *cs, used),
            family_free(used, "apex row "@, row_index as nat),
            used.subset_of(starting_with('a')),
            label_ok("apex row "@),
            "apex row "@.len() > 0,
            "apex row "@[0] == 'a',
            leaves == apex_leafs@,
            row_index + row@.len() <= total,
            row_index > 0 ==> leaves.len() > 1,
            row_index == 0 ==> row@ == leaves && cs_aux(*cs) == cs_aux(pre) && cs_constraints(*cs)
                == cs_constraints(pre),
            row_index > 0 ==> forall|j: int|
                0 <= j < row@.len() ==> assigned(
                    *cs,
                    num_var(#[trigger] row@[j]),
                    num_value(row@[j]),
                ),
            known ==> all_some(num_values(row@)) && apex_reduction(unwrapped(num_values(row@)))
                == goal,
            known == all_some(num_values(apex_leafs@)),
            row_index > 0 ==> known,
        decreases row@.len(),
    {
        let ghost before = *cs;
        let label = indexed_label("apex row ", row_index);
        proof {
            lemma_family_step(used, "apex row "@, row_index as nat);
            lemma_indexed_shape("apex row "@, row_index as nat);
            lemma_unused_label_is_free(pre, before, used, label@);
            let path = cs_scope(before).push(label@);
            assert(path.subrange(0, cs_scope(before).len() as int) =~= cs_scope(before));
            assert(in_child(cs_scope(before), path, label@));
        }
        enter_namespace(cs, label.as_str());
        let ghost entered = *cs;
        proof {
            lemma_entered_is_unused(before, entered, label@);
        }
        let above = hash_row(cs, &row);
        let ghost hashed = *cs;
        leave_namespace(cs);
        proof {
            lemma_left_child(before, entered, hashed, *cs, label@);
            lemma_step(pre, before, *cs, used, label@);
            used = used.insert(label@);
            lemma_under_more(pre, *cs, used, starting_with('a'));
            lemma_under_is_within(pre, *cs, starting_with('a'));
        }
        match above {
            Err(e) => {
                return Err(e);
            },
            Ok(next) => {
                row = next;
            },
        }
        row_index = row_index + 1;
    }
    proof {
        lemma_under_more(pre, *cs, used, starting_with('a'));
        lemma_under_is_within(pre, *cs, starting_with('a'));
    }
    let root = row.remove(0);
    Ok(root)
}

/// The inputs that an apex proof reads carry values: the leaves where they
/// are hashed, and the apex root, the bits and the siblings where there is a
/// level above the apex.
pub open spec fn apex_known(
    apex_leafs: Seq<AllocatedNum>,
    partition_bits: Seq<AllocatedBit>,
    partition_path: Seq<Vec<AllocatedNum>>,
) -> bool {
    &&& apex_leafs.len() > 1 ==> all_some(num_values(apex_leafs))
    &&& partition_path.len() > 0 ==> all_some(num_values(apex_leafs)) && all_some(
        bit_values(partition_bits),
    ) && path_known(partition_path)
}

/// What a successful apex proof leaves in the system: the last constraint
/// ties the claimed commitment to the root that the apex root, the
/// partition's bits and the partition's path lead to.
pub open spec fn proves_apex(
    pre: ConstraintSystem,
    post: ConstraintSystem,
    apex: AllocatedNum,
    computed: AllocatedNum,
    apex_leafs: Seq<AllocatedNum>,
    partition_bits: Seq<AllocatedBit>,
    partition_path: Seq<Vec<AllocatedNum>>,
    comm_d: AllocatedNum,
) -> bool {
    &&& all_some(num_values(apex_leafs)) ==> num_value(apex) == Some(
        apex_reduction(unwrapped(num_values(apex_leafs))),
    )
    &&& apex_leafs.len() == 1 ==> apex == apex_leafs[0]
    &&& proves_inclusion(pre, post, computed, partition_bits, apex, partition_path, comm_d)
}

/// Enforces that the root of the apex leaves lies in the binary tree with the
/// root `comm_d`, at the index that the partition's bits stand for, with the
/// siblings that the partition's path gives.
///
/// The current namespace must be unused, and the batch's size a power of two.
/// Every level of the path has one sibling, and there is one bit for each
/// level. The call succeeds exactly where every input that it reads carries
/// a value. Where a hash of the apex tree fails, the tree above is not
/// entered. One leaf without a level above gives the one constraint that the
/// leaf is the commitment.
pub fn apex_por(
    cs: &mut ConstraintSystem,
    apex_leafs: Vec<AllocatedNum>,
    partition_bits: Vec<AllocatedBit>,
    partition_path: Vec<Vec<AllocatedNum>>,
    comm_d: AllocatedNum,
) -> (r: Result<(), SynthesisError>)
    requires
        namespace_unused(*old(cs)),
        is_pow2(apex_leafs@.len()),
        (TreeShape { base_arity: 2, sub_arity: 0, top_arity: 0 }).fits(
            sibling_counts(partition_path@),
        ),
        partition_bits@.len() == (TreeShape {
            base_arity: 2,
            sub_arity: 0,
            top_arity: 0,
        }).challenge_len(sibling_counts(partition_path@)),
    ensures
        grows_in_namespace(*old(cs), *final(cs)),
        assignment_of(*old(cs)).valid() ==> assignment_of(*final(cs)).valid(),
        r is Ok <==> apex_known(apex_leafs@, partition_bits@, partition_path@),
        r is Err ==> is_assignment_missing(r->Err_0),
        apex_leafs@.len() > 1 && !all_some(num_values(apex_leafs@)) ==> name_free(
            *final(cs),
            "partition-tree por"@,
        ),
        apex_leafs@.len() == 1 && partition_path@.len() == 0 ==> cs_aux(*final(cs)) == cs_aux(
            *old(cs),
        ) && cs_constraints(*final(cs)) == cs_constraints(*old(cs)).push(
            equality_constraint(num_var(apex_leafs@[0]), num_var(comm_d)),
        ),
        r is Ok ==> exists|apex: AllocatedNum, computed: AllocatedNum|
            proves_apex(
                *old(cs),
                *final(cs),
                apex,
                computed,
                apex_leafs@,
                partition_bits@,
                partition_path@,
                comm_d,
            ),
{
    let ghost pre = *cs;
    let ghost used1 = Set::<Seq<char>>::empty().insert("apex tree"@);
    proof {
        lemma_apex_labels();
        lemma_unused_label_is_free(pre, pre, Set::empty(), "apex tree"@);
        let path = cs_scope(pre).push("apex tree"@);
        assert(path.subrange(0, cs_scope(pre).len() as int) =~= cs_scope(pre));
        assert(in_child(cs_scope(pre), path, "apex tree"@));
    }
    enter_namespace(cs, "apex tree");
    let ghost entered = *cs;
    proof {
        lemma_entered_is_unused(pre, entered, "apex tree"@);
    }
    let reduced = apex_root(cs, apex_leafs);
    let ghost reduced_cs = *cs;
    leave_namespace(cs);
    let ghost left = *cs;
    proof {
        lemma_left_child(pre, entered, reduced_cs, left, "apex tree"@);
        lemma_step(pre, pre, left, Set::empty(), "apex tree"@);
        lemma_under_is_within(pre, left, used1);
        lemma_unused_label_is_free(pre, left, used1, "partition-tree por"@);
        let path = cs_scope(left).push("partition-tree por"@);
        assert(path.subrange(0, cs_scope(left).len() as int) =~= cs_scope(left));
        assert(in_child(cs_scope(left), path, "partition-tree por"@));
    }
    proof {
        if apex_leafs@.len() == 1 {
            assert(all_some(num_values(apex_leafs@)) <==> num_values(apex_leafs@)[0] is Some);
        }
    }
    match reduced {
        Err(e) => Err(e),
        Ok(partition_label) => {
            enter_namespace(cs, "partition-tree por");
            let ghost entered2 = *cs;
            proof {
                lemma_entered_is_unused(left, entered2, "partition-tree por"@);
            }
            let shape = apex_tree_shape();
            let proved = por_no_challenge_input(
                cs,
                shape,
                partition_bits,
                partition_label,
                partition_path,
                comm_d,
            );
            let ghost proved_cs = *cs;
            leave_namespace(cs);
            proof {
                lemma_left_child(left, entered2, proved_cs, *cs, "partition-tree por"@);
                lemma_step(pre, left, *cs, used1, "partition-tree por"@);
                lemma_under_is_within(pre, *cs, used1.insert("partition-tree por"@));
                if proved is Ok {
                    let computed = choose|computed: AllocatedNum|
                        proves_inclusion(
                            entered2,
                            proved_cs,
                            computed,
                            partition_bits@,
                            partition_label,
                            partition_path@,
                            comm_d,
                        );
                    assert(proves_apex(
                        pre,
                        *cs,
                        partition_label,
                        computed,
                        apex_leafs@,
                        partition_bits@,
                        partition_path@,
                        comm_d,
                    ));
                }
            }
            proved
        },
    }
}

} // verus!
