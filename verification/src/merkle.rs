//! The Merkle proof verifier: it hashes a leaf up a path of sibling groups,
//! placing the node of each level among its siblings where the challenge's bits
//! say, and enforces that the result is the claimed root.

use crate::field::field_from_u64;
use crate::semantics::assignment_of;
use crate::labels::{
    family_free, indexed, indexed_label, label_ok, lemma_family_step, lemma_indexed_shape,
    starting_with,
};
use crate::bits::le_value;
use crate::hash::{
    poseidon_level, poseidon_multi_16, poseidon_multi_2, poseidon_multi_4, poseidon_multi_8,
};
use crate::system::{
    all_some, bit_value, bit_values, num_values, unwrapped, assigned, cs_aux, cs_constraints, cs_scope, enforce,
    enter_namespace, grows_in_child, grows_in_namespace, grows_under, in_child,
    is_assignment_missing, lc_add_term,
    lc_zero, leave_namespace, lemma_entered_is_unused, lemma_left_child, lemma_step,
    lemma_under_is_within, lemma_under_more, lemma_unused_label_is_free, name_free, namespace_unused,
    num_get_variable, num_value, num_var, one_var, single, AllocatedNum, Constraint,
    ConstraintSystem, Var,
};
use bellperson::gadgets::boolean::{AllocatedBit, Boolean};
use bellperson::{ConstraintSystem as Synthesis, SynthesisError};
use storage_proofs_core::gadgets::insertion::insert;
use vstd::arithmetic::power2::pow2;
use vstd::prelude::*;
use vstd::slice::slice_subrange;

verus! {

/// The arities of a tree: of its base levels, of its sub-tree level and of its
/// top-tree level, the last two zero where the tree has no such level.
#[derive(Clone, Copy, Debug)]
pub struct TreeShape {
    pub base_arity: usize,
    pub sub_arity: usize,
    pub top_arity: usize,
}

/// The arities of a level: the powers of two for which the hash has constants.
pub open spec fn arity_ok(arity: usize) -> bool {
    arity == 2 || arity == 4 || arity == 8 || arity == 16
}

/// The number of challenge bits that a level of the given arity consumes.
pub open spec fn arity_bit_len(arity: nat) -> nat {
    if arity == 2 {
        1
    } else if arity == 4 {
        2
    } else if arity == 8 {
        3
    } else if arity == 16 {
        4
    } else {
        0
    }
}

impl TreeShape {
    /// A tree has base levels, and a top-tree level only above a sub-tree level.
    pub open spec fn valid(self) -> bool {
        &&& arity_ok(self.base_arity)
        &&& self.sub_arity == 0 || arity_ok(self.sub_arity)
        &&& self.top_arity == 0 || arity_ok(self.top_arity)
        &&& self.top_arity > 0 ==> self.sub_arity > 0
    }

    /// The sibling counts of the levels above the base levels.
    pub open spec fn upper_levels(self) -> Seq<nat> {
        let sub = if self.sub_arity > 0 {
            seq![(self.sub_arity - 1) as nat]
        } else {
            Seq::<nat>::empty()
        };
        let top = if self.top_arity > 0 {
            seq![(self.top_arity - 1) as nat]
        } else {
            Seq::<nat>::empty()
        };
        sub + top
    }

    /// Whether a path with the given sibling counts leads through this tree:
    /// its base levels are those at its start that have a base level's sibling
    /// count, and what follows them is the sub-tree level and the top-tree
    /// level, as far as the tree has them.
    pub open spec fn fits(self, counts: Seq<nat>) -> bool {
        let base = base_levels(counts, self.base_arity as nat);
        counts.subrange(base as int, counts.len() as int) == self.upper_levels()
    }

    /// The number of challenge bits that a path through this tree consumes.
    pub open spec fn challenge_len(self, counts: Seq<nat>) -> nat {
        base_levels(counts, self.base_arity as nat) * arity_bit_len(self.base_arity as nat)
            + arity_bit_len(self.sub_arity as nat) + arity_bit_len(self.top_arity as nat)
    }

    /// Whether the shape is valid.
    pub fn is_valid(&self) -> (r: bool)
        ensures
            r == self.valid(),
    {
        let base = self.base_arity == 2 || self.base_arity == 4 || self.base_arity == 8
            || self.base_arity == 16;
        let sub = self.sub_arity == 0 || self.sub_arity == 2 || self.sub_arity == 4
            || self.sub_arity == 8 || self.sub_arity == 16;
        let top = self.top_arity == 0 || self.top_arity == 2 || self.top_arity == 4
            || self.top_arity == 8 || self.top_arity == 16;
        base && sub && top && (self.top_arity == 0 || self.sub_arity > 0)
    }
}

/// The number of levels at the start of a path that have a base level's
/// sibling count.
pub open spec fn base_levels(counts: Seq<nat>, base_arity: nat) -> nat
    decreases counts.len(),
{
    if counts.len() == 0 || counts[0] != base_arity - 1 {
        0
    } else {
        1 + base_levels(counts.drop_first(), base_arity)
    }
}

/// The sibling counts of a path.
pub open spec fn sibling_counts(path: Seq<Vec<AllocatedNum>>) -> Seq<nat> {
    Seq::new(path.len(), |i: int| path[i]@.len())
}

/// The sibling values of a path in which every value is present.
pub open spec fn path_values_of(path: Seq<Vec<AllocatedNum>>) -> Seq<Seq<nat>> {
    Seq::new(path.len(), |i: int| unwrapped(num_values(path[i]@)))
}

/// Every sibling of the path carries a value.
pub open spec fn path_known(path: Seq<Vec<AllocatedNum>>) -> bool {
    forall|i: int| 0 <= i < path.len() ==> all_some(num_values(#[trigger] path[i]@))
}

/// The parent of a node: the hash, at the node's height, of the node's
/// siblings with the node placed among them at the index that the bits stand
/// for.
pub open spec fn level_root(node: nat, index_bits: Seq<bool>, siblings: Seq<nat>, height: nat) -> nat {
    poseidon_level(height, siblings.insert(le_value(index_bits) as int, node))
}

/// The root that a node at the given height, a challenge and a path lead to:
/// each level consumes as many of the challenge's bits as its arity asks for,
/// lowest level and lowest bits first, and is hashed at its height.
pub open spec fn merkle_root(leaf: nat, bits: Seq<bool>, path: Seq<Seq<nat>>, height: nat) -> nat
    decreases path.len(),
{
    if path.len() == 0 {
        leaf
    } else {
        let k = arity_bit_len(path[0].len() + 1) as int;
        merkle_root(
            level_root(leaf, bits.subrange(0, k), path[0], height),
            bits.subrange(k, bits.len() as int),
            path.drop_first(),
            height + 1,
        )
    }
}

/// The constraint `x * 1 = y` between two variables.
pub open spec fn equality_constraint(x: Var, y: Var) -> Constraint {
    Constraint { a: single(x), b: single(one_var()), c: single(y) }
}

/// The list of `siblings` with `element` placed at the index that the bits
/// stand for, by `storage_proofs_core`'s `insert` in the namespace `label`. The
/// contract claims of its source and of the test system, which fails an
/// allocation only where the closure that computes its value fails: the call
/// succeeds exactly where the element, every bit and every sibling carries a
/// value, and else the error is `AssignmentMissing`; the list is one longer
/// than `siblings`, every number of it carries a value, and the values are
/// those of `siblings` with that of `element` at the index, least significant
/// bit first. It leaves out sizes other than two, four, eight and sixteen.
#[verifier::external_body]
pub(crate) fn insert_at(
    cs: &mut ConstraintSystem,
    label: &str,
    element: &AllocatedNum,
    index_bits: &[AllocatedBit],
    siblings: &Vec<AllocatedNum>,
) -> (r: Result<Vec<AllocatedNum>, SynthesisError>)
    requires
        label_ok(label@),
        name_free(*old(cs), label@),
        1 <= index_bits@.len() <= 4,
        siblings@.len() + 1 == pow2(index_bits@.len()),
    ensures
        grows_in_child(*old(cs), *final(cs), label@),
        r is Ok <==> (num_value(*element) is Some && all_some(bit_values(index_bits@)) && all_some(
            num_values(siblings@),
        )),
        r is Err ==> is_assignment_missing(r->Err_0),
        r is Ok ==> r->Ok_0@.len() == siblings@.len() + 1,
        r is Ok ==> all_some(num_values(r->Ok_0@)) && unwrapped(num_values(r->Ok_0@)) == unwrapped(
            num_values(siblings@),
        ).insert(
            le_value(unwrapped(bit_values(index_bits@))) as int,
            num_value(*element)->Some_0,
        ),
{
    let index: Vec<Boolean> = index_bits.iter().cloned().map(Boolean::from).collect();
    let others: Vec<_> = siblings.iter().map(|n| n.inner.clone()).collect();
    let list = insert(&mut cs.inner.namespace(|| label), &element.inner, &index, &others)?;
    Ok(list.into_iter().map(|inner| AllocatedNum { inner }).collect())
}

/// The number of bits of a level's index.
fn bit_len(arity: usize) -> (r: usize)
    requires
        arity_ok(arity),
    ensures
        r == arity_bit_len(arity as nat),
        1 <= r <= 4,
        pow2(r as nat) == arity,
{
    proof {
        vstd::arithmetic::power2::lemma2_to64();
    }
    if arity == 2 {
        1
    } else if arity == 4 {
        2
    } else if arity == 8 {
        3
    } else {
        4
    }
}

/// The label of the namespace of the level at the given height.
pub open spec fn level_label(height: nat) -> Seq<char> {
    indexed("merkle proof level "@, height)
}

proof fn lemma_level_prefix()
    ensures
        label_ok("merkle proof level "@),
        "merkle proof level "@.len() > 0,
        "merkle proof level "@[0] == 'm',
{
    reveal_strlit("merkle proof level ");
}

proof fn lemma_level_names()
    ensures
        label_ok("insert"@),
        label_ok("hash"@),
        "insert"@ != "hash"@,
{
    reveal_strlit("insert");
    reveal_strlit("hash");
    assert("insert"@.len() != "hash"@.len());
}

/// One level of the proof: places `node` among its siblings and hashes the
/// list, in a namespace of its own.
fn hash_level(
    cs: &mut ConstraintSystem,
    height: usize,
    arity: usize,
    node: &AllocatedNum,
    index_bits: &[AllocatedBit],
    siblings: &Vec<AllocatedNum>,
) -> (r: Result<AllocatedNum, SynthesisError>)
    requires
        name_free(*old(cs), level_label(height as nat)),
        arity_ok(arity),
        siblings@.len() + 1 == arity,
        index_bits@.len() == arity_bit_len(arity as nat),
    ensures
        grows_in_child(*old(cs), *final(cs), level_label(height as nat)),
        r is Ok <==> num_value(*node) is Some && all_some(bit_values(index_bits@)) && all_some(
            num_values(siblings@),
        ),
        r is Err ==> is_assignment_missing(r->Err_0),
        r is Ok ==> assigned(*final(cs), num_var(r->Ok_0), num_value(r->Ok_0)),
        r is Ok ==> num_value(r->Ok_0) == Some(
            level_root(
                num_value(*node)->Some_0,
                unwrapped(bit_values(index_bits@)),
                unwrapped(num_values(siblings@)),
                height as nat,
            ),
        ),
{
    let ghost pre = *cs;
    let bits = bit_len(arity);
    let label = indexed_label("merkle proof level ", height);
    proof {
        lemma_level_prefix();
        lemma_level_names();
        lemma_indexed_shape("merkle proof level "@, height as nat);
        let path = cs_scope(pre).push(label@);
        assert(path.subrange(0, cs_scope(pre).len() as int) =~= cs_scope(pre));
        assert(in_child(cs_scope(pre), path, label@));
    }
    enter_namespace(cs, label.as_str());
    let ghost entered = *cs;
    proof {
        lemma_entered_is_unused(pre, entered, label@);
        lemma_unused_label_is_free(entered, entered, Set::empty(), "insert"@);
    }
    let preimage = insert_at(cs, "insert", node, index_bits, siblings);
    let ghost inserted = *cs;
    proof {
        lemma_step(entered, entered, inserted, Set::empty(), "insert"@);
        lemma_unused_label_is_free(entered, inserted, Set::empty().insert("insert"@), "hash"@);
    }
    match preimage {
        Err(e) => {
            proof {
                lemma_under_is_within(entered, inserted, Set::empty().insert("insert"@));
            }
            leave_namespace(cs);
            proof {
                lemma_left_child(pre, entered, inserted, *cs, label@);
            }
            Err(e)
        },
        Ok(list) => {
            let hashed = if arity == 2 {
                poseidon_multi_2(cs, "hash", &list, height)
            } else if arity == 4 {
                poseidon_multi_4(cs, "hash", &list, height)
            } else if arity == 8 {
                poseidon_multi_8(cs, "hash", &list, height)
            } else {
                poseidon_multi_16(cs, "hash", &list, height)
            };
            let ghost done = *cs;
            proof {
                lemma_step(entered, inserted, done, Set::empty().insert("insert"@), "hash"@);
                lemma_under_is_within(
                    entered,
                    done,
                    Set::empty().insert("insert"@).insert("hash"@),
                );
            }
            leave_namespace(cs);
            proof {
                lemma_left_child(pre, entered, done, *cs, label@);
            }
            hashed
        },
    }
}


/// The number of levels at the start of the path that have a base level's
/// sibling count.
fn count_base_levels(path: &Vec<Vec<AllocatedNum>>, base_arity: usize) -> (r: usize)
    requires
        base_arity >= 1,
    ensures
        r == base_levels(sibling_counts(path@), base_arity as nat),
        r <= path@.len(),
        forall|i: int| 0 <= i < r ==> (#[trigger] path@[i])@.len() == base_arity - 1,
{
    let ghost counts = sibling_counts(path@);
    let mut n: usize = 0;
    proof {
        assert(counts.subrange(0, counts.len() as int) =~= counts);
    }
    while n < path.len() && path[n].len() == base_arity - 1
        invariant
            n <= path@.len(),
            base_arity >= 1,
            counts == sibling_counts(path@),
            base_levels(counts, base_arity as nat) == n + base_levels(
                counts.subrange(n as int, counts.len() as int),
                base_arity as nat,
            ),
            forall|i: int| 0 <= i < n ==> (#[trigger] path@[i])@.len() == base_arity - 1,
        decreases path@.len() - n,
    {
        proof {
            let rest = counts.subrange(n as int, counts.len() as int);
            assert(rest[0] == counts[n as int]);
            assert(rest.drop_first() =~= counts.subrange(n + 1, counts.len() as int));
        }
        n += 1;
    }
    proof {
        let rest = counts.subrange(n as int, counts.len() as int);
        if n < path@.len() {
            assert(rest[0] == counts[n as int]);
        }
    }
    n
}

/// Whether the shape is valid, the path leads through a tree of this shape,
/// and `challenge_bits` is the number of bits that the path consumes: what
/// [`por_no_challenge_input`] asks of its inputs.
pub fn path_fits(shape: &TreeShape, path: &Vec<Vec<AllocatedNum>>, challenge_bits: usize) -> (r:
    bool)
    ensures
        r == (shape.valid() && shape.fits(sibling_counts(path@)) && challenge_bits
            == shape.challenge_len(sibling_counts(path@))),
{
    if !shape.is_valid() {
        return false;
    }
    let ghost counts = sibling_counts(path@);
    let base_len = count_base_levels(path, shape.base_arity);
    let ghost upper = counts.subrange(base_len as int, counts.len() as int);
    let mut next = base_len;
    let mut upper_bits: usize = 0;
    if shape.sub_arity > 0 {
        if next >= path.len() || path[next].len() != shape.sub_arity - 1 {
            proof {
                let levels = shape.upper_levels();
                assert(levels.len() >= 1 && levels[0] == shape.sub_arity - 1);
                assert(upper.len() == counts.len() - base_len);
                if next < path@.len() {
                    assert(upper[0] == counts[next as int]);
                }
            }
            return false;
        }
        proof {
            assert(upper[0] == counts[next as int]);
        }
        upper_bits = upper_bits + bit_len(shape.sub_arity);
        next = next + 1;
    }
    if shape.top_arity > 0 {
        if next >= path.len() || path[next].len() != shape.top_arity - 1 {
            proof {
                let levels = shape.upper_levels();
                assert(levels.len() == 2 && levels[1] == shape.top_arity - 1);
                assert(upper.len() == counts.len() - base_len);
                if next < path@.len() {
                    assert(upper[1] == counts[next as int]);
                }
            }
            return false;
        }
        proof {
            assert(upper[1] == counts[next as int]);
        }
        upper_bits = upper_bits + bit_len(shape.top_arity);
        next = next + 1;
    }
    if next != path.len() {
        proof {
            assert(shape.upper_levels().len() == next - base_len);
            assert(upper.len() == counts.len() - base_len);
        }
        return false;
    }
    proof {
        assert(upper =~= shape.upper_levels());
    }
    if challenge_bits < upper_bits {
        return false;
    }
    let base_bits = bit_len(shape.base_arity);
    let rest = challenge_bits - upper_bits;
    proof {
        vstd::arithmetic::div_mod::lemma_fundamental_div_mod(rest as int, base_bits as int);
        if rest == base_len * base_bits {
            vstd::arithmetic::div_mod::lemma_fundamental_div_mod_converse(
                rest as int,
                base_bits as int,
                base_len as int,
                0,
            );
        }
        assert(base_bits * (rest / base_bits) == (rest / base_bits) * base_bits)
            by (nonlinear_arith);
    }
    rest % base_bits == 0 && rest / base_bits == base_len
}

/// Every bit of the range carries a value.
pub open spec fn bits_known(bits: Seq<AllocatedBit>, from: int, to: int) -> bool {
    forall|i: int| from <= i < to ==> bit_value(#[trigger] bits[i]) is Some
}

/// The bits of a range carry values exactly where each of them does.
proof fn lemma_bits_known(bits: Seq<AllocatedBit>, from: int, to: int)
    requires
        0 <= from <= to <= bits.len(),
    ensures
        all_some(bit_values(bits.subrange(from, to))) <==> bits_known(bits, from, to),
{
    let part = bits.subrange(from, to);
    if all_some(bit_values(part)) {
        assert forall|i: int| from <= i < to implies bit_value(#[trigger] bits[i]) is Some by {
            assert(bit_values(part)[i - from] is Some);
        }
    }
    if bits_known(bits, from, to) {
        assert forall|i: int| 0 <= i < part.len() implies (#[trigger] bit_values(part)[i])
            is Some by {
            assert(part[i] == bits[from + i]);
        }
    }
}

/// One level of the proof, on the node reached so far: it consumes the next
/// bits of the challenge and the next sibling group of the path.
fn climb(
    cs: &mut ConstraintSystem,
    arity: usize,
    height: usize,
    offset: usize,
    node: &AllocatedNum,
    c_bits: &Vec<AllocatedBit>,
    path: &Vec<Vec<AllocatedNum>>,
) -> (r: Result<AllocatedNum, SynthesisError>)
    requires
        name_free(*old(cs), level_label(height as nat)),
        arity_ok(arity),
        height < path@.len(),
        path@[height as int]@.len() + 1 == arity,
        offset + arity_bit_len(arity as nat) <= c_bits@.len(),
    ensures
        grows_in_child(*old(cs), *final(cs), level_label(height as nat)),
        r is Ok <==> num_value(*node) is Some && bits_known(
            c_bits@,
            offset as int,
            offset + arity_bit_len(arity as nat),
        ) && all_some(num_values(path@[height as int]@)),
        r is Err ==> is_assignment_missing(r->Err_0),
        r is Ok ==> assigned(*final(cs), num_var(r->Ok_0), num_value(r->Ok_0)),
        r is Ok ==> num_value(r->Ok_0) is Some,
        r is Ok && all_some(bit_values(c_bits@)) && path_known(path@) ==> merkle_root(
            num_value(*node)->Some_0,
            unwrapped(bit_values(c_bits@)).subrange(offset as int, c_bits@.len() as int),
            path_values_of(path@).subrange(height as int, path@.len() as int),
            height as nat,
        ) == merkle_root(
            num_value(r->Ok_0)->Some_0,
            unwrapped(bit_values(c_bits@)).subrange(
                offset + arity_bit_len(arity as nat),
                c_bits@.len() as int,
            ),
            path_values_of(path@).subrange(height + 1, path@.len() as int),
            (height + 1) as nat,
        ),
{
    let bits = bit_len(arity);
    let total = c_bits.len();
    let index_bits = slice_subrange(c_bits.as_slice(), offset, offset + bits);
    let siblings = &path[height];
    proof {
        lemma_bits_known(c_bits@, offset as int, offset + bits);
    }
    let r = hash_level(cs, height, arity, node, index_bits, siblings);
    proof {
        if r is Ok && all_some(bit_values(c_bits@)) && path_known(path@) {
            let all_bits = unwrapped(bit_values(c_bits@));
            let all_levels = path_values_of(path@);
            let rest_bits = all_bits.subrange(offset as int, c_bits@.len() as int);
            let rest_levels = all_levels.subrange(height as int, path@.len() as int);
            assert(unwrapped(bit_values(index_bits@)) =~= rest_bits.subrange(0, bits as int));
            assert(rest_levels[0] == unwrapped(num_values(siblings@)));
            assert(rest_levels[0].len() + 1 == arity);
            assert(rest_bits.subrange(bits as int, rest_bits.len() as int) =~= all_bits.subrange(
                offset + bits,
                c_bits@.len() as int,
            ));
            assert(rest_levels.drop_first() =~= all_levels.subrange(
                height + 1,
                path@.len() as int,
            ));
        }
    }
    r
}

/// The label of the constraint that ties the computed root to the claimed one.
proof fn lemma_root_label()
    ensures
        label_ok("calculated root == provided root"@),
        "calculated root == provided root"@.len() > 0,
        "calculated root == provided root"@[0] == 'c',
{
    reveal_strlit("calculated root == provided root");
}

/// The leaf, the challenge's bits and the path's siblings all carry values.
pub open spec fn inclusion_known(
    leaf: AllocatedNum,
    c_bits: Seq<AllocatedBit>,
    path: Seq<Vec<AllocatedNum>>,
) -> bool {
    num_value(leaf) is Some && all_some(bit_values(c_bits)) && path_known(path)
}

/// The root that the inputs lead to, where they all carry values.
pub open spec fn inclusion_root(
    leaf: AllocatedNum,
    c_bits: Seq<AllocatedBit>,
    path: Seq<Vec<AllocatedNum>>,
) -> nat {
    merkle_root(num_value(leaf)->Some_0, unwrapped(bit_values(c_bits)), path_values_of(path), 0)
}

/// Hashes the leaf up the path: the base levels first, then the sub-tree
/// level and the top-tree level, where the tree has them.
fn compute_root(
    cs: &mut ConstraintSystem,
    shape: &TreeShape,
    c_bits: &Vec<AllocatedBit>,
    leaf: AllocatedNum,
    path: &Vec<Vec<AllocatedNum>>,
) -> (r: Result<AllocatedNum, SynthesisError>)
    requires
        namespace_unused(*old(cs)),
        shape.valid(),
        shape.fits(sibling_counts(path@)),
        c_bits@.len() == shape.challenge_len(sibling_counts(path@)),
    ensures
        grows_under(*old(cs), *final(cs), starting_with('m')),
        path@.len() == 0 ==> r is Ok && r->Ok_0 == leaf && cs_constraints(*final(cs))
            == cs_constraints(*old(cs)) && cs_aux(*final(cs)) == cs_aux(*old(cs)),
        path@.len() > 0 ==> (r is Ok <==> inclusion_known(leaf, c_bits@, path@)),
        r is Err ==> is_assignment_missing(r->Err_0),
        r is Ok && path@.len() > 0 ==> assigned(*final(cs), num_var(r->Ok_0), num_value(r->Ok_0)),
        r is Ok && inclusion_known(leaf, c_bits@, path@) ==> num_value(r->Ok_0) == Some(
            inclusion_root(leaf, c_bits@, path@),
        ),
{
    let ghost pre = *cs;
    let ghost counts = sibling_counts(path@);
    let ghost all_bits = unwrapped(bit_values(c_bits@));
    let ghost all_levels = path_values_of(path@);
    let ghost known = inclusion_known(leaf, c_bits@, path@);
    let ghost goal = inclusion_root(leaf, c_bits@, path@);
    let ghost mut used: Set<Seq<char>> = Set::empty();
    let base_bits = bit_len(shape.base_arity);
    let base_len = count_base_levels(path, shape.base_arity);
    let total = c_bits.len();
    let ghost upper = counts.subrange(base_len as int, counts.len() as int);
    proof {
        lemma_level_prefix();
        assert(upper == shape.upper_levels());
        assert(all_bits.subrange(0, c_bits@.len() as int) =~= all_bits);
        assert(all_levels.subrange(0, path@.len() as int) =~= all_levels);
        assert(c_bits@.subrange(0, c_bits@.len() as int) =~= c_bits@);
        lemma_bits_known(c_bits@, 0, c_bits@.len() as int);
        assert(base_len * base_bits <= c_bits@.len()) by (nonlinear_arith)
            requires
                c_bits@.len() >= base_len * base_bits,
        ;
    }
    let mut cur = leaf;
    let mut height: usize = 0;
    let mut offset: usize = 0;
    while height < base_len
        invariant
            height <= base_len <= path@.len(),
            arity_ok(shape.base_arity),
            base_bits == arity_bit_len(shape.base_arity as nat),
            offset == height * base_bits,
            base_len * base_bits <= c_bits@.len(),
            total == c_bits@.len(),
            forall|i: int| 0 <= i < base_len ==> (#[trigger] path@[i])@.len() == shape.base_arity - 1,
            namespace_unused(pre),
            pre == *old(cs),
            grows_under(pre, *cs, used),
            family_free(used, "merkle proof level "@, height as nat),
            used.subset_of(starting_with('m')),
            "merkle proof level "@.len() > 0,
            "merkle proof level "@[0] == 'm',
            label_ok("merkle proof level "@),
            height == 0 ==> cur == leaf && cs_constraints(*cs) == cs_constraints(pre) && cs_aux(*cs)
                == cs_aux(pre),
            all_some(bit_values(c_bits@)) <==> bits_known(c_bits@, 0, c_bits@.len() as int),
            height > 0 ==> num_value(cur) is Some && num_value(leaf) is Some && bits_known(
                c_bits@,
                0,
                offset as int,
            ) && forall|l: int| 0 <= l < height ==> all_some(num_values(#[trigger] path@[l]@)),
            height > 0 ==> assigned(*cs, num_var(cur), num_value(cur)),
            all_bits == unwrapped(bit_values(c_bits@)),
            all_levels == path_values_of(path@),
            known == inclusion_known(leaf, c_bits@, path@),
            goal == inclusion_root(leaf, c_bits@, path@),
            known ==> num_value(cur) is Some && goal == merkle_root(
                num_value(cur)->Some_0,
                all_bits.subrange(offset as int, c_bits@.len() as int),
                all_levels.subrange(height as int, path@.len() as int),
                height as nat,
            ),
        decreases base_len - height,
    {
        let ghost before = *cs;
        proof {
            lemma_family_step(used, "merkle proof level "@, height as nat);
            lemma_unused_label_is_free(pre, before, used, level_label(height as nat));
            if known {
                assert(all_some(num_values(path@[height as int]@)));
            }
            assert((height + 1) * base_bits == height * base_bits + base_bits)
                by (nonlinear_arith);
            assert((height + 1) * base_bits <= base_len * base_bits) by (nonlinear_arith)
                requires
                    height + 1 <= base_len,
            ;
        }
        let next = climb(cs, shape.base_arity, height, offset, &cur, c_bits, path);
        proof {
            lemma_step(pre, before, *cs, used, level_label(height as nat));
            lemma_indexed_shape("merkle proof level "@, height as nat);
            used = used.insert(level_label(height as nat));
            lemma_under_more(pre, *cs, used, starting_with('m'));
        }
        match next {
            Err(e) => {
                return Err(e);
            },
            Ok(n) => {
                cur = n;
            },
        }
        offset = offset + base_bits;
        height = height + 1;
    }
    if shape.sub_arity > 0 {
        let ghost before = *cs;
        let sub_bits = bit_len(shape.sub_arity);
        proof {
            assert(upper.len() >= 1);
            assert(upper[0] == counts[height as int]);
            lemma_family_step(used, "merkle proof level "@, height as nat);
            lemma_unused_label_is_free(pre, before, used, level_label(height as nat));
            if known {
                assert(all_some(num_values(path@[height as int]@)));
            }
        }
        let next = climb(cs, shape.sub_arity, height, offset, &cur, c_bits, path);
        proof {
            lemma_step(pre, before, *cs, used, level_label(height as nat));
            lemma_indexed_shape("merkle proof level "@, height as nat);
            used = used.insert(level_label(height as nat));
            lemma_under_more(pre, *cs, used, starting_with('m'));
        }
        match next {
            Err(e) => {
                return Err(e);
            },
            Ok(n) => {
                cur = n;
            },
        }
        offset = offset + sub_bits;
        height = height + 1;
    }
    if shape.top_arity > 0 {
        let ghost before = *cs;
        let top_bits = bit_len(shape.top_arity);
        proof {
            assert(upper.len() == 2);
            assert(upper[1] == counts[height as int]);
            lemma_family_step(used, "merkle proof level "@, height as nat);
            lemma_unused_label_is_free(pre, before, used, level_label(height as nat));
            if known {
                assert(all_some(num_values(path@[height as int]@)));
            }
        }
        let next = climb(cs, shape.top_arity, height, offset, &cur, c_bits, path);
        proof {
            lemma_step(pre, before, *cs, used, level_label(height as nat));
            lemma_indexed_shape("merkle proof level "@, height as nat);
            used = used.insert(level_label(height as nat));
            lemma_under_more(pre, *cs, used, starting_with('m'));
        }
        match next {
            Err(e) => {
                return Err(e);
            },
            Ok(n) => {
                cur = n;
            },
        }
        offset = offset + top_bits;
        height = height + 1;
    }
    proof {
        assert(upper.len() == counts.len() - base_len);
        assert(height == path@.len());
        assert(offset == c_bits@.len());
        if height > 0 {
            assert(path_known(path@));
        }
        lemma_under_more(pre, *cs, used, starting_with('m'));
    }
    Ok(cur)
}

/// What a successful proof of inclusion leaves in the system: its last
/// constraint says that `computed` equals the claimed root, and `computed`
/// carries the root that the leaf, the challenge and the path lead to.
pub open spec fn proves_inclusion(
    pre: ConstraintSystem,
    post: ConstraintSystem,
    computed: AllocatedNum,
    c_bits: Seq<AllocatedBit>,
    leaf: AllocatedNum,
    path: Seq<Vec<AllocatedNum>>,
    root: AllocatedNum,
) -> bool {
    &&& cs_constraints(post).len() > cs_constraints(pre).len()
    &&& cs_constraints(post).last() == equality_constraint(num_var(computed), num_var(root))
    &&& path.len() == 0 ==> computed == leaf
    &&& path.len() > 0 ==> assigned(post, num_var(computed), num_value(computed))
    &&& inclusion_known(leaf, c_bits, path) ==> num_value(computed) == Some(
        inclusion_root(leaf, c_bits, path),
    )
}

/// Enforces that `leaf` lies in the tree with the root `root`, at the index
/// that the challenge's bits stand for, least significant bit first, with the
/// siblings that `path_values` gives for each level.
///
/// The current namespace must be unused. The path must lead through a tree of
/// the given shape, and the challenge must have exactly the bits that the path
/// consumes. Without levels nothing is hashed and the call succeeds; with
/// levels it succeeds exactly where the leaf, every bit and every sibling
/// carries a value. The level at height `h` of the path is hashed at height
/// `h`.
pub fn por_no_challenge_input(
    cs: &mut ConstraintSystem,
    shape: TreeShape,
    c_bits: Vec<AllocatedBit>,
    leaf: AllocatedNum,
    path_values: Vec<Vec<AllocatedNum>>,
    root: AllocatedNum,
) -> (r: Result<(), SynthesisError>)
    requires
        namespace_unused(*old(cs)),
        shape.valid(),
        shape.fits(sibling_counts(path_values@)),
        c_bits@.len() == shape.challenge_len(sibling_counts(path_values@)),
    ensures
        grows_in_namespace(*old(cs), *final(cs)),
        assignment_of(*old(cs)).valid() ==> assignment_of(*final(cs)).valid(),
        path_values@.len() == 0 ==> r is Ok && cs_aux(*final(cs)) == cs_aux(*old(cs))
            && cs_constraints(*final(cs)) == cs_constraints(*old(cs)).push(
            equality_constraint(num_var(leaf), num_var(root)),
        ),
        path_values@.len() > 0 ==> (r is Ok <==> inclusion_known(leaf, c_bits@, path_values@)),
        r is Err ==> is_assignment_missing(r->Err_0),
        r is Ok ==> exists|computed: AllocatedNum|
            proves_inclusion(*old(cs), *final(cs), computed, c_bits@, leaf, path_values@, root),
{
    let ghost pre = *cs;
    let computed = compute_root(cs, &shape, &c_bits, leaf, &path_values);
    let ghost hashed = *cs;
    proof {
        lemma_under_is_within(pre, hashed, starting_with('m'));
    }
    match computed {
        Err(e) => Err(e),
        Ok(computed) => {
            let one = field_from_u64(1);
            let a = lc_add_term(lc_zero(), &one, num_get_variable(&computed));
            let b = lc_add_term(lc_zero(), &one, Var::Input(0));
            let c = lc_add_term(lc_zero(), &one, num_get_variable(&root));
            proof {
                lemma_root_label();
                lemma_unused_label_is_free(
                    pre,
                    hashed,
                    starting_with('m'),
                    "calculated root == provided root"@,
                );
            }
            enforce(cs, "calculated root == provided root", a, b, c);
            proof {
                lemma_step(
                    pre,
                    hashed,
                    *cs,
                    starting_with('m'),
                    "calculated root == provided root"@,
                );
                lemma_under_is_within(
                    pre,
                    *cs,
                    starting_with('m').insert("calculated root == provided root"@),
                );
                assert(proves_inclusion(pre, *cs, computed, c_bits@, leaf, path_values@, root));
            }
            Ok(())
        },
    }
}

} // verus!
