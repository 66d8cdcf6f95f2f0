//! Labels of namespaces, variables and constraints. They serve diagnostics
//! only, but the constraint system refuses a label used twice in one
//! namespace, so the gadgets prove theirs distinct.

use vstd::prelude::*;

verus! {

/// A label may not hold the path separator.
pub open spec fn label_ok(name: Seq<char>) -> bool {
    forall|i: int| 0 <= i < name.len() ==> name[i] != '/'
}

pub open spec fn digit(d: nat) -> char {
    if d == 0 {
        '0'
    } else if d == 1 {
        '1'
    } else if d == 2 {
        '2'
    } else if d == 3 {
        '3'
    } else if d == 4 {
        '4'
    } else if d == 5 {
        '5'
    } else if d == 6 {
        '6'
    } else if d == 7 {
        '7'
    } else if d == 8 {
        '8'
    } else {
        '9'
    }
}

/// The decimal digits of a number, most significant first.
pub open spec fn decimal(n: nat) -> Seq<char>
    decreases n,
{
    if n < 10 {
        seq![digit(n)]
    } else {
        decimal(n / 10).push(digit(n % 10))
    }
}

/// A label made of a fixed prefix and a running number.
pub open spec fn indexed(prefix: Seq<char>, index: nat) -> Seq<char> {
    prefix + decimal(index)
}

pub proof fn lemma_digit_injective(a: nat, b: nat)
    requires
        a < 10,
        b < 10,
        digit(a) == digit(b),
    ensures
        a == b,
{
    assert(digit(a) as u32 == 48 + a);
    assert(digit(b) as u32 == 48 + b);
}

pub proof fn lemma_decimal_shape(n: nat)
    ensures
        decimal(n).len() >= 1,
        n >= 10 ==> decimal(n).len() >= 2,
        label_ok(decimal(n)),
    decreases n,
{
    if n >= 10 {
        lemma_decimal_shape(n / 10);
    }
}

pub proof fn lemma_decimal_injective(a: nat, b: nat)
    requires
        decimal(a) == decimal(b),
    ensures
        a == b,
    decreases a,
{
    lemma_decimal_shape(a);
    lemma_decimal_shape(b);
    if a < 10 && b < 10 {
        assert(decimal(a)[0] == digit(a));
        assert(decimal(b)[0] == digit(b));
        lemma_digit_injective(a, b);
    } else if a >= 10 && b >= 10 {
        let da = decimal(a / 10);
        let db = decimal(b / 10);
        assert(decimal(a).last() == digit(a % 10));
        assert(decimal(b).last() == digit(b % 10));
        assert(da =~= decimal(a).drop_last());
        assert(db =~= decimal(b).drop_last());
        lemma_decimal_injective(a / 10, b / 10);
        lemma_digit_injective(a % 10, b % 10);
        assert(a == 10 * (a / 10) + a % 10);
        assert(b == 10 * (b / 10) + b % 10);
    }
}

/// Two labels of one family are equal only if their numbers are.
pub proof fn lemma_indexed_injective(prefix: Seq<char>, a: nat, b: nat)
    requires
        indexed(prefix, a) == indexed(prefix, b),
    ensures
        a == b,
{
    let n = prefix.len() as int;
    let x = indexed(prefix, a);
    let y = indexed(prefix, b);
    assert(decimal(a) =~= x.subrange(n, x.len() as int));
    assert(decimal(b) =~= y.subrange(n, y.len() as int));
    lemma_decimal_injective(a, b);
}

/// A label of a family is a label, and starts as its prefix does.
pub proof fn lemma_indexed_shape(prefix: Seq<char>, index: nat)
    requires
        label_ok(prefix),
        prefix.len() > 0,
    ensures
        label_ok(indexed(prefix, index)),
        indexed(prefix, index).len() > 0,
        indexed(prefix, index)[0] == prefix[0],
{
    lemma_decimal_shape(index);
}

/// The labels that start with the character `c`.
pub open spec fn starting_with(c: char) -> Set<Seq<char>> {
    Set::new(|name: Seq<char>| name.len() > 0 && name[0] == c)
}

/// No label of the family, from the number `from` on, is among those taken.
pub open spec fn family_free(taken: Set<Seq<char>>, prefix: Seq<char>, from: nat) -> bool {
    forall|k: nat| k >= from ==> !taken.contains(#[trigger] indexed(prefix, k))
}

/// Taking the next label of a family leaves the later ones free.
pub proof fn lemma_family_step(taken: Set<Seq<char>>, prefix: Seq<char>, next: nat)
    requires
        family_free(taken, prefix, next),
    ensures
        family_free(taken.insert(indexed(prefix, next)), prefix, next + 1),
        !taken.contains(indexed(prefix, next)),
{
    assert forall|k: nat| k >= next + 1 implies !taken.insert(indexed(prefix, next)).contains(
        #[trigger] indexed(prefix, k),
    ) by {
        if indexed(prefix, k) == indexed(prefix, next) {
            lemma_indexed_injective(prefix, k, next);
        }
    }
}

/// The label of the given family and number, by std's `format!` with `{}` for
/// a `&str` and a `usize`: the contract claims that it is the prefix followed
/// by the number's decimal digits.
#[verifier::external_body]
pub(crate) fn indexed_label(prefix: &str, index: usize) -> (r: String)
    ensures
        r@ == indexed(prefix@, index as nat),
{
    format!("{}{}", prefix, index)
}

} // verus!
