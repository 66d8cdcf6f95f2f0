//! The challenge bit generator: it derives a partition's challenges from a
//! commitment, as chunks of the bits of hash digests.

use crate::apex::lemma_assigned_persists;
use crate::bits::{
    allocated_num_to_allocated_bits, bit_clone, bit_of, bits_of, decomposed_at,
    lemma_decomposed_at, lemma_decomposed_persists,
};
use crate::field::{field_add, field_from_u64, field_mul, modulus, scalar_value, CAPACITY};
use crate::hash::{pair, poseidon, poseidon_hash2};
use crate::semantics::assignment_of;
use crate::labels::{
    family_free, indexed, indexed_label, label_ok, lemma_family_step, lemma_indexed_shape,
    starting_with,
};
use crate::system::{
    add_term, all_some, alloc_num, assigned, bit_value, bit_values, cs_aux, cs_constraints,
    cs_inputs, cs_scope,
    enforce, enter_namespace, extends, grows, grows_in_namespace, grows_under,
    in_child, is_assignment_missing, lc_add_term, lc_zero, leave_namespace,
    lemma_entered_is_unused, lemma_left_child, lemma_step, lemma_under_is_within,
    lemma_under_more, lemma_unused_label_is_free, namespace_unused, no_terms,
    num_get_value, num_get_variable, num_value, num_var, one_var, single, unwrapped,
    AllocatedNum, Constraint, ConstraintSystem, Var,
};
use bellperson::gadgets::boolean::AllocatedBit;
use bellperson::SynthesisError;
use vstd::arithmetic::div_mod::{
    lemma_add_mod_noop, lemma_fundamental_div_mod, lemma_fundamental_div_mod_converse,
    lemma_small_mod,
};
use vstd::prelude::*;

verus! {

/// The number of challenges that one digest yields: as many chunks of
/// `bits_per_challenge` bits as fit into the field's capacity.
pub open spec fn challenges_per_digest(bits_per_challenge: nat) -> nat {
    254nat / bits_per_challenge
}

/// The number of digests that a partition needs for its challenges: the
/// number of challenges over the number that a digest yields, rounded up.
pub open spec fn digests_per_partition(challenges: nat, bits_per_challenge: nat) -> nat {
    if challenges == 0 {
        0
    } else {
        (challenges - 1) as nat / challenges_per_digest(bits_per_challenge) + 1
    }
}

/// The index of a partition's digest `j` among the digests of all
/// partitions, as a field element.
pub open spec fn digest_index(partition: nat, digests: nat, j: nat) -> nat {
    (partition * digests + j) % modulus()
}

/// The digest `j` of a partition: the hash of the commitment and of the
/// digest's index.
pub open spec fn digest(commitment: nat, partition: nat, digests: nat, j: nat) -> nat {
    poseidon(pair(commitment, digest_index(partition, digests, j)))
}

/// The bits of the challenge `g` of a partition, least significant first: a
/// chunk of the bits of one of the partition's digests.
pub open spec fn challenge_bits(
    commitment: nat,
    partition: nat,
    challenges: nat,
    bits_per_challenge: nat,
    g: nat,
) -> Seq<bool> {
    let per_digest = challenges_per_digest(bits_per_challenge);
    let digests = digests_per_partition(challenges, bits_per_challenge);
    let chunk = g % per_digest;
    bits_of(digest(commitment, partition, digests, g / per_digest), 255).subrange(
        (chunk * bits_per_challenge) as int,
        (chunk * bits_per_challenge + bits_per_challenge) as int,
    )
}

/// The constraint `(digests * partition + j * 1) * 1 = index`.
pub open spec fn index_constraint(partition: Var, digests: nat, j: nat, index: Var) -> Constraint {
    Constraint {
        a: add_term(add_term(no_terms(), partition, digests), one_var(), j),
        b: single(one_var()),
        c: single(index),
    }
}

/// The constraint at position `at` ties the index of digest `j` to the
/// partition, on the auxiliary variable `index`, which is assigned that index
/// where the partition carries a value.
pub open spec fn index_enforced_at(
    cs: ConstraintSystem,
    partition: AllocatedNum,
    digests: nat,
    j: nat,
    at: int,
    index: usize,
) -> bool {
    &&& 0 <= at < cs_constraints(cs).len()
    &&& cs_constraints(cs)[at] == index_constraint(
        num_var(partition),
        digests,
        j,
        Var::Aux(index),
    )
    &&& index < cs_aux(cs).len()
    &&& num_value(partition) is Some ==> cs_aux(cs)[index as int] == digest_index(
        num_value(partition)->Some_0,
        digests,
        j,
    )
}

/// The system holds the constraint that ties the index of digest `j` to the
/// partition.
pub open spec fn enforces_index(
    cs: ConstraintSystem,
    partition: AllocatedNum,
    digests: nat,
    j: nat,
) -> bool {
    exists|at: int, index: usize| #[trigger] index_enforced_at(cs, partition, digests, j, at, index)
}

/// A constraint on a digest's index stays while the system grows.
pub proof fn lemma_index_persists(
    pre: ConstraintSystem,
    post: ConstraintSystem,
    partition: AllocatedNum,
    digests: nat,
    j: nat,
)
    requires
        enforces_index(pre, partition, digests, j),
        extends(cs_aux(pre), cs_aux(post)),
        extends(cs_constraints(pre), cs_constraints(post)),
    ensures
        enforces_index(post, partition, digests, j),
{
    let (at, index) = choose|at: int, index: usize| #[trigger]
        index_enforced_at(pre, partition, digests, j, at, index);
    assert(index_enforced_at(post, partition, digests, j, at, index));
}

/// The number of digests is the least that yields all challenges.
pub proof fn lemma_digests_suffice(challenges: nat, bits_per_challenge: nat)
    requires
        1 <= bits_per_challenge <= 254,
        challenges > 0,
    ensures
        challenges_per_digest(bits_per_challenge) >= 1,
        digests_per_partition(challenges, bits_per_challenge) >= 1,
        (digests_per_partition(challenges, bits_per_challenge) - 1) * challenges_per_digest(
            bits_per_challenge,
        ) < challenges,
        challenges <= digests_per_partition(challenges, bits_per_challenge)
            * challenges_per_digest(bits_per_challenge),
        challenges_per_digest(bits_per_challenge) * bits_per_challenge <= 254,
{
    let per_digest = challenges_per_digest(bits_per_challenge);
    lemma_fundamental_div_mod(254, bits_per_challenge as int);
    assert(per_digest >= 1) by (nonlinear_arith)
        requires
            254 == bits_per_challenge * per_digest + 254int % (bits_per_challenge as int),
            0 <= 254int % (bits_per_challenge as int) < bits_per_challenge,
            1 <= bits_per_challenge <= 254,
            per_digest >= 0,
    ;
    let q = (challenges - 1) / (per_digest as int);
    lemma_fundamental_div_mod(challenges - 1, per_digest as int);
    assert(per_digest * q + per_digest == (q + 1) * per_digest) by (nonlinear_arith);
    assert(per_digest * q == q * per_digest) by (nonlinear_arith);
    assert(per_digest * bits_per_challenge == bits_per_challenge * per_digest)
        by (nonlinear_arith);
}

/// The challenge at position `chunk` of digest `j` is challenge
/// `j * per_digest + chunk` of the partition.
pub proof fn lemma_challenge_position(j: nat, chunk: nat, per_digest: nat)
    requires
        chunk < per_digest,
    ensures
        (j * per_digest + chunk) / per_digest == j,
        (j * per_digest + chunk) % per_digest == chunk,
{
    lemma_fundamental_div_mod_converse(
        (j * per_digest + chunk) as int,
        per_digest as int,
        j as int,
        chunk as int,
    );
}

proof fn lemma_challenge_labels()
    ensures
        label_ok("digest "@),
        "digest "@.len() > 0,
        "digest "@[0] == 'd',
        label_ok("index"@),
        label_ok("index == partition * digests + j"@),
        label_ok("hash"@),
        label_ok("bits"@),
        "index"@ != "index == partition * digests + j"@,
        "index"@ != "hash"@,
        "index"@ != "bits"@,
        "index == partition * digests + j"@ != "hash"@,
        "index == partition * digests + j"@ != "bits"@,
        "hash"@ != "bits"@,
{
    reveal_strlit("digest ");
    reveal_strlit("index");
    reveal_strlit("index == partition * digests + j");
    reveal_strlit("hash");
    reveal_strlit("bits");
    assert("index"@.len() != "index == partition * digests + j"@.len());
    assert("index"@.len() != "hash"@.len());
    assert("index"@.len() != "bits"@.len());
    assert("index == partition * digests + j"@.len() != "hash"@.len());
    assert("index == partition * digests + j"@.len() != "bits"@.len());
    assert("hash"@[0] != "bits"@[0]);
}

/// The label of the namespace of the digest `j`.
pub open spec fn digest_label(j: nat) -> Seq<char> {
    indexed("digest "@, j)
}

/// The bits are the decomposition of the number `digest`, which is a variable
/// of the system and carries the digest `j` of the partition.
pub open spec fn digest_decomposed_at(
    cs: ConstraintSystem,
    bits: Seq<AllocatedBit>,
    comm_r_new: AllocatedNum,
    partition: AllocatedNum,
    digests: nat,
    j: nat,
    digest: AllocatedNum,
    a0: nat,
    c0: nat,
) -> bool {
    &&& num_value(digest) is Some
    &&& assigned(cs, num_var(digest), num_value(digest))
    &&& num_value(comm_r_new) is Some && num_value(partition) is Some ==> num_value(digest)
        == Some(
        self::digest(num_value(comm_r_new)->Some_0, num_value(partition)->Some_0, digests, j),
    )
    &&& decomposed_at(cs, bits, num_value(digest)->Some_0, num_var(digest), a0, c0)
}

/// The bits are the allocated bits of the digest `j` of the partition: their
/// variables, their boolean constraints and the constraint that ties them to
/// the digest's variable lie in the system.
pub open spec fn digest_decomposed(
    cs: ConstraintSystem,
    bits: Seq<AllocatedBit>,
    comm_r_new: AllocatedNum,
    partition: AllocatedNum,
    digests: nat,
    j: nat,
) -> bool {
    exists|digest: AllocatedNum, a0: nat, c0: nat| #[trigger]
        digest_decomposed_at(cs, bits, comm_r_new, partition, digests, j, digest, a0, c0)
}

/// A digest's decomposition stays while the system grows.
pub proof fn lemma_digest_persists(
    pre: ConstraintSystem,
    post: ConstraintSystem,
    bits: Seq<AllocatedBit>,
    comm_r_new: AllocatedNum,
    partition: AllocatedNum,
    digests: nat,
    j: nat,
)
    requires
        digest_decomposed(pre, bits, comm_r_new, partition, digests, j),
        cs_inputs(post) == cs_inputs(pre),
        extends(cs_aux(pre), cs_aux(post)),
        extends(cs_constraints(pre), cs_constraints(post)),
    ensures
        digest_decomposed(post, bits, comm_r_new, partition, digests, j),
{
    let (digest, a0, c0) = choose|digest: AllocatedNum, a0: nat, c0: nat| #[trigger]
        digest_decomposed_at(pre, bits, comm_r_new, partition, digests, j, digest, a0, c0);
    lemma_assigned_persists(pre, post, digest);
    lemma_decomposed_persists(pre, post, bits, num_value(digest)->Some_0, num_var(digest), a0, c0);
    assert(digest_decomposed_at(post, bits, comm_r_new, partition, digests, j, digest, a0, c0));
}

/// What one digest leaves: its 255 bits, which are the decomposition of the
/// digest, and the constraint on its index.
pub open spec fn digest_allocated(
    post: ConstraintSystem,
    bits: Seq<AllocatedBit>,
    comm_r_new: AllocatedNum,
    partition: AllocatedNum,
    digests: nat,
    j: nat,
) -> bool {
    &&& bits.len() == 255
    &&& num_value(partition) is Some
    &&& enforces_index(post, partition, digests, j)
    &&& digest_decomposed(post, bits, comm_r_new, partition, digests, j)
    &&& num_value(comm_r_new) is Some ==> forall|i: int|
        0 <= i < 255 ==> bit_value(#[trigger] bits[i]) == Some(
            bit_of(
                digest(
                    num_value(comm_r_new)->Some_0,
                    num_value(partition)->Some_0,
                    digests,
                    j,
                ),
                i as nat,
            ),
        )
}

/// The bits of the digest `j` of a partition, in the current namespace: the
/// digest's index is allocated and tied to the partition, hashed with the
/// commitment, and the hash is decomposed.
fn digest_bits_in_namespace(
    cs: &mut ConstraintSystem,
    comm_r_new: &AllocatedNum,
    partition: &AllocatedNum,
    digests: usize,
    j: usize,
) -> (r: Result<Vec<AllocatedBit>, SynthesisError>)
    requires
        namespace_unused(*old(cs)),
    ensures
        grows_in_namespace(*old(cs), *final(cs)),
        r is Ok ==> digest_allocated(
            *final(cs),
            r->Ok_0@,
            *comm_r_new,
            *partition,
            digests as nat,
            j as nat,
        ),
        r is Ok <==> (num_value(*partition) is Some && num_value(*comm_r_new) is Some),
        r is Err ==> is_assignment_missing(r->Err_0),
{
    let ghost pre = *cs;
    let ghost used1 = Set::<Seq<char>>::empty().insert("index"@);
    let ghost used2 = used1.insert("index == partition * digests + j"@);
    let ghost used3 = used2.insert("hash"@);
    let digests_fr = field_from_u64(digests as u64);
    let j_fr = field_from_u64(j as u64);
    let one = field_from_u64(1);
    let value = match num_get_value(partition) {
        Some(k) => {
            proof {
                lemma_small_mod(j as nat, modulus());
                lemma_add_mod_noop(
                    (scalar_value(k) * digests) as int,
                    j as int,
                    modulus() as int,
                );
            }
            Some(field_add(&field_mul(&k, &digests_fr), &j_fr))
        },
        None => None,
    };
    proof {
        lemma_challenge_labels();
        lemma_unused_label_is_free(pre, pre, Set::empty(), "index"@);
    }
    let allocated = alloc_num(cs, "index", value);
    let ghost after_alloc = *cs;
    proof {
        lemma_step(pre, pre, after_alloc, Set::empty(), "index"@);
        lemma_under_is_within(pre, after_alloc, used1);
        lemma_unused_label_is_free(pre, after_alloc, used1, "index == partition * digests + j"@);
    }
    let index = match allocated {
        Err(e) => {
            return Err(e);
        },
        Ok(index) => index,
    };
    let a = lc_add_term(
        lc_add_term(lc_zero(), &digests_fr, num_get_variable(partition)),
        &j_fr,
        Var::Input(0),
    );
    let b = lc_add_term(lc_zero(), &one, Var::Input(0));
    let c = lc_add_term(lc_zero(), &one, num_get_variable(&index));
    enforce(cs, "index == partition * digests + j", a, b, c);
    let ghost enforced = *cs;
    proof {
        lemma_step(pre, after_alloc, enforced, used1, "index == partition * digests + j"@);
        lemma_under_is_within(pre, enforced, used2);
        lemma_unused_label_is_free(pre, enforced, used2, "hash"@);
        assert(index_enforced_at(
            enforced,
            *partition,
            digests as nat,
            j as nat,
            cs_constraints(pre).len() as int,
            cs_aux(pre).len() as usize,
        ));
    }
    let hashed = poseidon_hash2(cs, "hash", comm_r_new, &index);
    let ghost after_hash = *cs;
    proof {
        lemma_step(pre, enforced, after_hash, used2, "hash"@);
        lemma_under_is_within(pre, after_hash, used3);
        lemma_unused_label_is_free(pre, after_hash, used3, "bits"@);
        lemma_index_persists(enforced, after_hash, *partition, digests as nat, j as nat);
        let path = cs_scope(after_hash).push("bits"@);
        assert(path.subrange(0, cs_scope(after_hash).len() as int) =~= cs_scope(after_hash));
        assert(in_child(cs_scope(after_hash), path, "bits"@));
    }
    let digest = match hashed {
        Err(e) => {
            return Err(e);
        },
        Ok(digest) => digest,
    };
    enter_namespace(cs, "bits");
    let ghost entered = *cs;
    proof {
        lemma_entered_is_unused(after_hash, entered, "bits"@);
    }
    let bits = allocated_num_to_allocated_bits(cs, &digest);
    let ghost decomposed = *cs;
    leave_namespace(cs);
    proof {
        lemma_left_child(after_hash, entered, decomposed, *cs, "bits"@);
        lemma_step(pre, after_hash, *cs, used3, "bits"@);
        lemma_under_is_within(pre, *cs, used3.insert("bits"@));
        lemma_index_persists(after_hash, *cs, *partition, digests as nat, j as nat);
        if bits is Ok {
            let x = num_value(digest)->Some_0;
            lemma_decomposed_at(entered, decomposed, bits->Ok_0@, x, num_var(digest));
            lemma_decomposed_persists(
                decomposed,
                *cs,
                bits->Ok_0@,
                x,
                num_var(digest),
                cs_aux(entered).len(),
                cs_constraints(entered).len(),
            );
            lemma_assigned_persists(after_hash, *cs, digest);
            assert(digest_decomposed_at(
                *cs,
                bits->Ok_0@,
                *comm_r_new,
                *partition,
                digests as nat,
                j as nat,
                digest,
                cs_aux(entered).len(),
                cs_constraints(entered).len(),
            ));
        }
    }
    bits
}

/// Appends `count` chunks of `size` bits each, taken from the start of
/// `bits`, to `generated`.
fn take_chunks(
    bits: &Vec<AllocatedBit>,
    count: usize,
    size: usize,
    generated: &mut Vec<Vec<AllocatedBit>>,
)
    requires
        count * size <= bits@.len(),
    ensures
        final(generated)@.len() == old(generated)@.len() + count,
        forall|g: int|
            0 <= g < old(generated)@.len() ==> (#[trigger] final(generated)@[g]) == old(
                generated,
            )@[g],
        forall|chunk: int|
            0 <= chunk < count ==> (#[trigger] final(generated)@[old(generated)@.len()
                + chunk])@ == bits@.subrange(chunk * size, chunk * size + size),
{
    let ghost before = generated@;
    let total = bits.len();
    let mut chunk: usize = 0;
    while chunk < count
        invariant
            chunk <= count,
            count * size <= bits@.len(),
            total == bits@.len(),
            generated@.len() == before.len() + chunk,
            forall|g: int| 0 <= g < before.len() ==> (#[trigger] generated@[g]) == before[g],
            forall|done: int|
                0 <= done < chunk ==> (#[trigger] generated@[before.len() + done])@
                    == bits@.subrange(done * size, done * size + size),
        decreases count - chunk,
    {
        proof {
            assert(chunk * size + size <= count * size) by (nonlinear_arith)
                requires
                    chunk < count,
            ;
        }
        let start = chunk * size;
        let mut group: Vec<AllocatedBit> = Vec::new();
        let mut i: usize = 0;
        while i < size
            invariant
                i <= size,
                start + size <= total,
                total == bits@.len(),
                group@ == bits@.subrange(start as int, start + i),
            decreases size - i,
        {
            group.push(bit_clone(&bits[start + i]));
            proof {
                assert(group@ =~= bits@.subrange(start as int, start + i + 1));
            }
            i = i + 1;
        }
        let ghost grown = generated@;
        generated.push(group);
        proof {
            assert forall|done: int| 0 <= done < chunk + 1 implies (#[trigger] generated@[before.len()
                + done])@ == bits@.subrange(done * size, done * size + size) by {
                if done < chunk {
                    assert(generated@[before.len() + done] == grown[before.len() + done]);
                }
            }
        }
        chunk = chunk + 1;
    }
}

/// The challenges generated so far are those of the partition, in order.
pub open spec fn challenges_generated(
    generated: Seq<Vec<AllocatedBit>>,
    comm_r_new: AllocatedNum,
    partition: AllocatedNum,
    challenges: nat,
    bits_per_challenge: nat,
) -> bool {
    forall|g: int|
        0 <= g < generated.len() ==> {
            &&& (#[trigger] generated[g])@.len() == bits_per_challenge
            &&& num_value(comm_r_new) is Some ==> all_some(bit_values(generated[g]@)) && unwrapped(
                bit_values(generated[g]@),
            ) == challenge_bits(
                num_value(comm_r_new)->Some_0,
                num_value(partition)->Some_0,
                challenges,
                bits_per_challenge,
                g as nat,
            )
        }
}

/// The challenges are chunks of the allocated bits of the partition's
/// digests, which `digest_bits` lists: the challenge `g` is a chunk of the
/// bits of the digest `g / per_digest`.
pub open spec fn chunks_of_digests(
    cs: ConstraintSystem,
    generated: Seq<Vec<AllocatedBit>>,
    digest_bits: Seq<Seq<AllocatedBit>>,
    comm_r_new: AllocatedNum,
    partition: AllocatedNum,
    challenges: nat,
    bits_per_challenge: nat,
) -> bool {
    let per_digest = challenges_per_digest(bits_per_challenge);
    let digests = digests_per_partition(challenges, bits_per_challenge);
    &&& forall|j: int|
        0 <= j < digest_bits.len() ==> digest_decomposed(
            cs,
            #[trigger] digest_bits[j],
            comm_r_new,
            partition,
            digests,
            j as nat,
        )
    &&& generated.len() <= digest_bits.len() * per_digest
    &&& forall|g: int|
        0 <= g < generated.len() ==> (#[trigger] generated[g])@ == digest_bits[g / (
        per_digest as int)].subrange(
            (g % (per_digest as int)) * bits_per_challenge,
            (g % (per_digest as int)) * bits_per_challenge + bits_per_challenge,
        )
}

/// The challenges are chunks of the allocated bits of the partition's
/// digests.
pub open spec fn challenges_allocated(
    cs: ConstraintSystem,
    generated: Seq<Vec<AllocatedBit>>,
    comm_r_new: AllocatedNum,
    partition: AllocatedNum,
    challenges: nat,
    bits_per_challenge: nat,
) -> bool {
    exists|digest_bits: Seq<Seq<AllocatedBit>>|
        digest_bits.len() == digests_per_partition(challenges, bits_per_challenge)
            && #[trigger] chunks_of_digests(
            cs,
            generated,
            digest_bits,
            comm_r_new,
            partition,
            challenges,
            bits_per_challenge,
        )
}

/// Every digest's index is tied to the partition by a constraint.
pub open spec fn indices_enforced(
    cs: ConstraintSystem,
    partition: AllocatedNum,
    digests: nat,
    upto: nat,
) -> bool {
    forall|j: nat| j < upto ==> #[trigger] enforces_index(cs, partition, digests, j)
}

/// Generates the bits of a partition's challenges.
///
/// A digest yields as many challenges as chunks of `bits_per_challenge` bits
/// fit into the field's capacity. Digest `j` is the hash of the commitment and
/// of the index `partition * digests + j`, where `digests` is the number of
/// digests that the challenges need; the index is a new variable, tied to the
/// partition by one constraint. The digest is decomposed into its bits, and
/// the challenges are the chunks of the digests' allocated bits, in order; of
/// the last digest only as many as are still missing.
///
/// The current namespace must be unused, and a challenge has at least one bit
/// and at most as many as the field's capacity. Without challenges nothing is
/// generated and the call succeeds; with challenges it succeeds exactly where
/// the commitment and the partition carry values.
pub fn gen_challenge_bits(
    cs: &mut ConstraintSystem,
    comm_r_new: &AllocatedNum,
    partition: &AllocatedNum,
    challenges: usize,
    bits_per_challenge: usize,
) -> (r: Result<Vec<Vec<AllocatedBit>>, SynthesisError>)
    requires
        namespace_unused(*old(cs)),
        1 <= bits_per_challenge <= 254,
    ensures
        grows_in_namespace(*old(cs), *final(cs)),
        challenges == 0 ==> r is Ok && cs_aux(*final(cs)) == cs_aux(*old(cs)) && cs_constraints(
            *final(cs),
        ) == cs_constraints(*old(cs)),
        assignment_of(*old(cs)).valid() ==> assignment_of(*final(cs)).valid(),
        challenges > 0 ==> (r is Ok <==> (num_value(*partition) is Some && num_value(*comm_r_new)
            is Some)),
        r is Err ==> is_assignment_missing(r->Err_0),
        r is Ok ==> r->Ok_0@.len() == challenges && challenges_generated(
            r->Ok_0@,
            *comm_r_new,
            *partition,
            challenges as nat,
            bits_per_challenge as nat,
        ) && indices_enforced(
            *final(cs),
            *partition,
            digests_per_partition(challenges as nat, bits_per_challenge as nat),
            digests_per_partition(challenges as nat, bits_per_challenge as nat),
        ),
        r is Ok ==> challenges_allocated(
            *final(cs),
            r->Ok_0@,
            *comm_r_new,
            *partition,
            challenges as nat,
            bits_per_challenge as nat,
        ),
{
    let ghost pre = *cs;
    let ghost mut used: Set<Seq<char>> = Set::empty();
    let per_digest = CAPACITY / bits_per_challenge;
    let mut generated_bits: Vec<Vec<AllocatedBit>> = Vec::new();
    if challenges == 0 {
        proof {
            lemma_under_is_within(pre, *cs, used);
            assert(chunks_of_digests(
                *cs,
                generated_bits@,
                Seq::<Seq<AllocatedBit>>::empty(),
                *comm_r_new,
                *partition,
                challenges as nat,
                bits_per_challenge as nat,
            ));
        }
        return Ok(generated_bits);
    }
    proof {
        lemma_digests_suffice(challenges as nat, bits_per_challenge as nat);
        lemma_challenge_labels();
    }
    let digests = (challenges - 1) / per_digest + 1;
    let ghost mut all_digest_bits: Seq<Seq<AllocatedBit>> = Seq::empty();
    let mut j: usize = 0;
    while j < digests
        invariant
            j <= digests,
            1 <= bits_per_challenge <= 254,
            challenges > 0,
            per_digest == challenges_per_digest(bits_per_challenge as nat),
            per_digest >= 1,
            per_digest * bits_per_challenge <= 254,
            digests == digests_per_partition(challenges as nat, bits_per_challenge as nat),
            (digests - 1) * per_digest < challenges,
            challenges <= digests * per_digest,
            pre == *old(cs),
            namespace_unused(pre),
            grows_under(pre, *cs, used),
            family_free(used, "digest "@, j as nat),
            used.subset_of(starting_with('d')),
            label_ok("digest "@),
            "digest "@.len() > 0,
            "digest "@[0] == 'd',
            j < digests ==> generated_bits@.len() == j * per_digest,
            j == digests ==> generated_bits@.len() == challenges,
            j > 0 ==> num_value(*partition) is Some && num_value(*comm_r_new) is Some,
            challenges_generated(
                generated_bits@,
                *comm_r_new,
                *partition,
                challenges as nat,
                bits_per_challenge as nat,
            ),
            indices_enforced(*cs, *partition, digests as nat, j as nat),
            all_digest_bits.len() == j,
            chunks_of_digests(
                *cs,
                generated_bits@,
                all_digest_bits,
                *comm_r_new,
                *partition,
                challenges as nat,
                bits_per_challenge as nat,
            ),
        decreases digests - j,
    {
        let ghost before = *cs;
        let ghost earlier = generated_bits@;
        let label = indexed_label("digest ", j);
        proof {
            lemma_family_step(used, "digest "@, j as nat);
            lemma_indexed_shape("digest "@, j as nat);
            lemma_unused_label_is_free(pre, before, used, label@);
            let path = cs_scope(before).push(label@);
            assert(path.subrange(0, cs_scope(before).len() as int) =~= cs_scope(before));
            assert(in_child(cs_scope(before), path, label@));
        }
        enter_namespace(cs, label.as_str());
        let ghost entered = *cs;
        proof {
            lemma_entered_is_unused(before, entered, label@);
        }
        let digest_bits = digest_bits_in_namespace(cs, comm_r_new, partition, digests, j);
        let ghost hashed = *cs;
        leave_namespace(cs);
        proof {
            lemma_left_child(before, entered, hashed, *cs, label@);
            lemma_step(pre, before, *cs, used, label@);
            used = used.insert(label@);
            lemma_under_more(pre, *cs, used, starting_with('d'));
            lemma_under_is_within(pre, *cs, starting_with('d'));
        }
        let digest_bits = match digest_bits {
            Err(e) => {
                return Err(e);
            },
            Ok(bits) => bits,
        };
        proof {
            assert forall|i: nat| i < j + 1 implies #[trigger] enforces_index(
                *cs,
                *partition,
                digests as nat,
                i,
            ) by {
                if i < j {
                    lemma_index_persists(before, *cs, *partition, digests as nat, i);
                } else {
                    lemma_index_persists(hashed, *cs, *partition, digests as nat, i);
                }
            }
            let ghost longer = all_digest_bits.push(digest_bits@);
            assert forall|i: int| 0 <= i < longer.len() implies digest_decomposed(
                *cs,
                #[trigger] longer[i],
                *comm_r_new,
                *partition,
                digests as nat,
                i as nat,
            ) by {
                if i < j {
                    assert(longer[i] == all_digest_bits[i]);
                    lemma_digest_persists(
                        before,
                        *cs,
                        longer[i],
                        *comm_r_new,
                        *partition,
                        digests as nat,
                        i as nat,
                    );
                } else {
                    lemma_digest_persists(
                        hashed,
                        *cs,
                        longer[i],
                        *comm_r_new,
                        *partition,
                        digests as nat,
                        i as nat,
                    );
                }
            }
            assert(j * per_digest + per_digest <= (digests - 1)
                * per_digest || j == digests - 1) by (nonlinear_arith)
                requires
                    j < digests,
                    per_digest >= 1,
            ;
        }
        // Of the last digest only the challenges that are still missing are taken.
        let challenges_to_take = if j == digests - 1 {
            challenges - generated_bits.len()
        } else {
            per_digest
        };
        proof {
            assert(challenges_to_take <= per_digest) by (nonlinear_arith)
                requires
                    challenges <= digests * per_digest,
                    j == digests - 1 ==> challenges_to_take == challenges - j
                        * per_digest,
                    j != digests - 1 ==> challenges_to_take == per_digest,
            ;
            assert(challenges_to_take * bits_per_challenge <= 254) by (nonlinear_arith)
                requires
                    challenges_to_take <= per_digest,
                    per_digest * bits_per_challenge <= 254,
                    bits_per_challenge >= 1,
            ;
        }
        take_chunks(&digest_bits, challenges_to_take, bits_per_challenge, &mut generated_bits);
        proof {
            let per = per_digest as nat;
            let size = bits_per_challenge as nat;
            let longer = all_digest_bits.push(digest_bits@);
            assert((j + 1) * per_digest == j * per_digest + per_digest) by (nonlinear_arith);
            assert forall|g: int| 0 <= g < generated_bits@.len() implies (
            #[trigger] generated_bits@[g])@ == longer[g / (per as int)].subrange(
                (g % (per as int)) * size,
                (g % (per as int)) * size + size,
            ) by {
                if g < earlier.len() {
                    assert(generated_bits@[g] == earlier[g]);
                    lemma_fundamental_div_mod(g, per as int);
                    assert(g / (per as int) < j) by (nonlinear_arith)
                        requires
                            0 <= g < j * per,
                            per >= 1,
                            g == per * (g / (per as int)) + g % (per as int),
                            0 <= g % (per as int) < per,
                    ;
                    assert(longer[g / (per as int)] == all_digest_bits[g / (per as int)]);
                } else {
                    let chunk = g - earlier.len();
                    assert(generated_bits@[earlier.len() + chunk]@ == digest_bits@.subrange(
                        chunk * size,
                        chunk * size + size,
                    ));
                    lemma_challenge_position(j as nat, chunk as nat, per);
                }
            }
            all_digest_bits = longer;
            assert forall|g: int| 0 <= g < generated_bits@.len() implies {
                &&& (#[trigger] generated_bits@[g])@.len() == size
                &&& num_value(*comm_r_new) is Some ==> all_some(bit_values(generated_bits@[g]@))
                    && unwrapped(bit_values(generated_bits@[g]@)) == challenge_bits(
                    num_value(*comm_r_new)->Some_0,
                    num_value(*partition)->Some_0,
                    challenges as nat,
                    size,
                    g as nat,
                )
            } by {
                if g < earlier.len() {
                    assert(generated_bits@[g] == earlier[g]);
                } else {
                    let chunk = g - earlier.len();
                    assert(generated_bits@[earlier.len() + chunk]@ == digest_bits@.subrange(
                        chunk * size,
                        chunk * size + size,
                    ));
                    assert(chunk * size + size <= 254) by (nonlinear_arith)
                        requires
                            0 <= chunk < challenges_to_take,
                            challenges_to_take * size <= 254,
                    ;
                    lemma_challenge_position(j as nat, chunk as nat, per);
                    if num_value(*comm_r_new) is Some {
                        let d = digest(
                            num_value(*comm_r_new)->Some_0,
                            num_value(*partition)->Some_0,
                            digests as nat,
                            j as nat,
                        );
                        let group = generated_bits@[g]@;
                        assert forall|i: int| 0 <= i < group.len() implies (#[trigger] bit_values(
                            group,
                        )[i]) is Some by {
                            assert(group[i] == digest_bits@[chunk * size + i]);
                        }
                        assert forall|i: int| 0 <= i < size implies unwrapped(bit_values(group))[i]
                            == bits_of(d, 255).subrange(chunk * size, chunk * size + size)[i] by {
                            assert(group[i] == digest_bits@[chunk * size + i]);
                        }
                        assert(unwrapped(bit_values(group)) =~= bits_of(d, 255).subrange(
                            chunk * size,
                            chunk * size + size,
                        ));
                    }
                }
            }
            assert((j + 1) * per_digest == j * per_digest
                + per_digest) by (nonlinear_arith);
        }
        j = j + 1;
    }
    Ok(generated_bits)
}

} // verus!
