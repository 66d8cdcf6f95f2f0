//! The scalar field of BLS12-381, as the gadgets see it: the integers modulo a
//! fixed prime, with the arithmetic left to `blstrs`.

use blstrs::Scalar;
use vstd::prelude::*;

verus! {

#[verifier::external_type_specification]
#[verifier::external_body]
pub struct ExScalar(Scalar);

/// The order of the scalar field.
pub open spec fn modulus() -> nat {
    0x73eda753299d7d483339d80809a1d80553bda402fffe5bfeffffffff00000001nat
}

/// The number of bits of a field element's canonical form.
pub const NUM_BITS: usize = 255;

/// The number of bits that every field element can hold without wrapping.
pub const CAPACITY: usize = 254;

/// The canonical integer, below [`modulus`], that a field element stands for.
pub uninterp spec fn scalar_value(s: Scalar) -> nat;

/// The sum of two field elements, by `blstrs`'s `Add` for `&Scalar`: the
/// contract claims that it is the sum of their integers modulo the field's order.
#[verifier::external_body]
pub(crate) fn field_add(a: &Scalar, b: &Scalar) -> (r: Scalar)
    ensures
        scalar_value(r) == (scalar_value(*a) + scalar_value(*b)) % modulus(),
{
    a + b
}

/// The product of two field elements, by `blstrs`'s `Mul` for `&Scalar`: the
/// contract claims that it is the product of their integers modulo the field's
/// order.
#[verifier::external_body]
pub(crate) fn field_mul(a: &Scalar, b: &Scalar) -> (r: Scalar)
    ensures
        scalar_value(r) == (scalar_value(*a) * scalar_value(*b)) % modulus(),
{
    a * b
}

/// The field element of a small integer, by `blstrs`'s `From<u64>` for
/// `Scalar`: the contract claims that it stands for that integer, which is
/// below the field's order.
#[verifier::external_body]
pub(crate) fn field_from_u64(x: u64) -> (r: Scalar)
    ensures
        scalar_value(r) == x as nat,
{
    Scalar::from(x)
}

} // verus!
