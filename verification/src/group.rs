//! Scalar multiplication on the elliptic-curve group, supplied by the curve
//! library behind trusted wrappers. What the multiplications return depends
//! on their arguments alone and is named by the two uninterpreted functions
//! below.

use crate::field::{FieldElement, GroupPoint, Scalar, scalar_modulus};
use snarkvm_console_network_environment::{Console, Environment, FromBits};
use snarkvm_console_types::{Field, Group, Scalar as ConsoleScalar};
use snarkvm_curves::AffineCurve;
use snarkvm_utilities::ToBits;
use vstd::prelude::*;

verus! {

/// What multiplying the subgroup generator by a scalar value returns: the
/// affine coordinates of the resulting point.
pub uninterp spec fn gen_mul_of(scalar: int) -> (int, int);

/// What multiplying the affine point `(x, y)` by a scalar value and taking
/// the x-coordinate returns; `None` when the coordinates do not describe a
/// point of the prime-order subgroup.
pub uninterp spec fn mul_x_of(x: int, y: int, scalar: int) -> Option<int>;

/// Multiplies the subgroup generator by a scalar.
///
/// Relies on the curve library's scalar multiplication. The result is a
/// subgroup point, so deriving a shared secret from it never fails; and since
/// `(g * s) * t` and `(g * t) * s` both equal `g * (s * t)`, the
/// x-coordinates obtained from the two orders agree — the Diffie-Hellman
/// agreement that encryption and decryption rely on.
#[verifier::external_body]
pub fn g_scalar_multiply(scalar: &Scalar) -> (r: GroupPoint)
    requires
        scalar.inv(),
    ensures
        r.inv(),
        (r.x_value(), r.y_value()) == gen_mul_of(scalar.value()),
        forall|t: int|
            0 <= t < scalar_modulus() ==> (#[trigger] mul_x_of(r.x_value(), r.y_value(), t))
                is Some,
        forall|t: int|
            0 <= t < scalar_modulus() ==> (#[trigger] mul_x_of(r.x_value(), r.y_value(), t))
                == mul_x_of(gen_mul_of(t).0, gen_mul_of(t).1, scalar.value()),
{
    let s = ConsoleScalar::<Console>::from_bits_le(&scalar.bits).unwrap();
    let p = Group::<Console>::generator() * s;
    GroupPoint {
        x: FieldElement { bits: p.to_x_coordinate().to_bits_le() },
        y: FieldElement { bits: p.to_y_coordinate().to_bits_le() },
    }
}

/// Multiplies the point with the given affine coordinates by a scalar and
/// returns the x-coordinate of the result.
///
/// Relies on the curve library's point reconstruction — which yields a point
/// exactly when the coordinates lie on the curve and in the prime-order
/// subgroup — and on its scalar multiplication.
#[verifier::external_body]
pub(crate) fn point_x_mul(point: &GroupPoint, scalar: &Scalar) -> (r: Option<FieldElement>)
    requires
        point.inv(),
        scalar.inv(),
    ensures
        r is Some <==> mul_x_of(point.x_value(), point.y_value(), scalar.value()) is Some,
        r matches Some(f) ==> {
            &&& f.inv()
            &&& mul_x_of(point.x_value(), point.y_value(), scalar.value()) == Some(f.value())
        },
{
    let x = Field::<Console>::from_bits_le(&point.x.bits).unwrap();
    let y = Field::<Console>::from_bits_le(&point.y.bits).unwrap();
    let s = ConsoleScalar::<Console>::from_bits_le(&scalar.bits).unwrap();
    match <Console as Environment>::Affine::from_coordinates((*x, *y)) {
        Some(affine) => {
            let shared = (Group::<Console>::new(affine) * s).to_x_coordinate();
            Some(FieldElement { bits: shared.to_bits_le() })
        },
        None => None,
    }
}

} // verus!
