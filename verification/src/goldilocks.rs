//! Arithmetic of the Goldilocks field, the integers modulo `2^64 - 2^32 + 1`,
//! as `lambdaworks_math` implements it on `u64` values.

use lambdaworks_math::field::fields::u64_goldilocks_field::Goldilocks64Field;
use lambdaworks_math::field::traits::IsField;
use vstd::arithmetic::div_mod::*;
use vstd::prelude::*;

verus! {

/// The order of the Goldilocks field, `2^64 - 2^32 + 1`.
pub const GOLDILOCKS_ORDER: u64 = 0xFFFF_FFFF_0000_0001;

/// The canonical residue of `x` in the Goldilocks field.
pub open spec fn residue(x: int) -> int {
    x % (GOLDILOCKS_ORDER as int)
}

/// Trusted: `Goldilocks64Field::from_u64` returns the canonical residue of its
/// argument.
#[verifier::external_body]
pub(crate) fn field_from_u64(x: u64) -> (r: u64)
    ensures
        r == residue(x as int),
{
    Goldilocks64Field::from_u64(x)
}

/// Trusted: `Goldilocks64Field::one` returns 1.
#[verifier::external_body]
pub(crate) fn field_one() -> (r: u64)
    ensures
        r == 1,
{
    Goldilocks64Field::one()
}

/// Trusted: `Goldilocks64Field::mul` returns the canonical residue of the
/// product of its arguments, whatever 64-bit values they are.
#[verifier::external_body]
pub(crate) fn field_mul(a: u64, b: u64) -> (r: u64)
    ensures
        r == residue(a as int * b as int),
{
    Goldilocks64Field::mul(&a, &b)
}

/// Trusted: `Goldilocks64Field::sub` returns the canonical residue of the
/// difference of its arguments, whatever 64-bit values they are.
#[verifier::external_body]
pub(crate) fn field_sub(a: u64, b: u64) -> (r: u64)
    ensures
        r == residue(a as int - b as int),
{
    Goldilocks64Field::sub(&a, &b)
}

/// A value below the order of the field is its own residue.
pub proof fn lemma_residue_small(x: int)
    requires
        0 <= x < GOLDILOCKS_ORDER,
    ensures
        residue(x) == x,
{
    lemma_small_mod(x as nat, GOLDILOCKS_ORDER as nat);
}

} // verus!
