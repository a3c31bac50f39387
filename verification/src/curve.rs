//! Public keys on the curve BLS12-381: the multiple of the group's generator
//! by a private scalar.

use lambdaworks_math::cyclic_group::IsGroup;
use lambdaworks_math::elliptic_curve::short_weierstrass::curves::bls12_381::curve::BLS12381Curve;
use lambdaworks_math::elliptic_curve::traits::IsEllipticCurve;
use vstd::prelude::*;

verus! {

/// The affine coordinates, as `lambdaworks_math` writes them in hexadecimal,
/// of the multiple of the generator of BLS12-381 by `scalar`: first `x`,
/// then `y`.
pub uninterp spec fn generator_multiple(scalar: u128) -> (Seq<char>, Seq<char>);

/// A point of the curve in affine coordinates, each written in hexadecimal.
#[derive(Clone, Debug, PartialEq, Eq)]
pub struct CurvePoint {
    pub x: String,
    pub y: String,
}

impl View for CurvePoint {
    type V = (Seq<char>, Seq<char>);

    open spec fn view(&self) -> (Seq<char>, Seq<char>) {
        (self.x@, self.y@)
    }
}

/// Trusted: `operate_with_self` on the generator of `BLS12381Curve` is a
/// function of the scalar alone; its result is handed back in affine
/// coordinates, each as the hexadecimal string that `to_hex` gives.
#[verifier::external_body]
fn multiply_generator(scalar: u128) -> (r: CurvePoint)
    ensures
        r@ == generator_multiple(scalar),
{
    let point = BLS12381Curve::generator().operate_with_self(scalar).to_affine();
    CurvePoint { x: point.x().to_hex(), y: point.y().to_hex() }
}

/// Derives the public key that belongs to a private key: the generator of
/// the curve, added to itself `private_key` times.
///
/// The same private key always gives the same point.
pub fn derive_public_key(private_key: u128) -> (public_key: CurvePoint)
    ensures
        public_key@ == generator_multiple(private_key),
{
    multiply_generator(private_key)
}

} // verus!
