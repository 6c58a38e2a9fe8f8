//! Base-field elements, scalars and group points, carried as plain
//! little-endian bit vectors so that every transformation over them can be
//! reasoned about directly. The network's field arithmetic itself is done by
//! the curve library behind the two trusted wrappers at the end of this file.

use crate::bits::{bits_value, lemma_bits_value_bounds, lemma_bits_value_zero_extend};
use snarkvm_console_network_environment::{Console, FromBits};
use snarkvm_console_types::Field;
use snarkvm_utilities::ToBits;
use vstd::arithmetic::power2::{lemma2_to64, lemma2_to64_rest, lemma_pow2_adds, lemma_pow2_strictly_increases, pow2};
use vstd::prelude::*;

verus! {

/// Number of bits in the canonical representation of a base-field element.
pub const FIELD_SIZE_BITS: usize = 253;

/// Number of data-carrying bits of a base-field element: every value of that
/// many bits lies below the field modulus.
pub const FIELD_DATA_BITS: usize = 252;

/// Number of bits in the canonical representation of a scalar.
pub const SCALAR_SIZE_BITS: usize = 251;

/// Number of data-carrying bits of a scalar.
pub const SCALAR_DATA_BITS: usize = 250;

/// The order of the prime base field.
pub open spec fn field_modulus() -> int {
    8444461749428370424248824938781546531375899335154063827935233455917409239041int
}

/// The order of the scalar field (the order of the group's prime subgroup).
pub open spec fn scalar_modulus() -> int {
    2111115437357092606062206234695386632838870926408408195193685246394721360383int
}

/// Every value of at most `FIELD_DATA_BITS` bits lies below the field modulus.
pub proof fn lemma_pow2_field_data_bits()
    ensures
        pow2(FIELD_DATA_BITS as nat) < field_modulus(),
{
    lemma2_to64();
    lemma2_to64_rest();
    lemma_pow2_adds(63, 63);
    assert(pow2(63) == 0x8000000000000000) by {
        lemma2_to64_rest();
    }
    assert(pow2(126) == 0x40000000000000000000000000000000int);
    lemma_pow2_adds(126, 126);
    assert(pow2(252)
        == 0x1000000000000000000000000000000000000000000000000000000000000000int);
}

/// Every value of at most `SCALAR_DATA_BITS` bits lies below the scalar modulus.
pub proof fn lemma_pow2_scalar_data_bits()
    ensures
        pow2(SCALAR_DATA_BITS as nat) < scalar_modulus(),
{
    lemma2_to64();
    lemma2_to64_rest();
    lemma_pow2_adds(63, 62);
    assert(pow2(63) == 0x8000000000000000 && pow2(62) == 0x4000000000000000) by {
        lemma2_to64_rest();
    }
    assert(pow2(125) == 0x20000000000000000000000000000000int);
    lemma_pow2_adds(125, 125);
    assert(pow2(250) == 0x400000000000000000000000000000000000000000000000000000000000000int);
}

/// An element of the base field, held as its canonical little-endian bits.
#[derive(Clone, Debug, PartialEq, Eq)]
pub struct FieldElement {
    pub(crate) bits: Vec<bool>,
}

impl View for FieldElement {
    type V = Seq<bool>;

    closed spec fn view(&self) -> Seq<bool> {
        self.bits@
    }
}

impl FieldElement {
    /// The integer value of this element.
    pub open spec fn value(self) -> int {
        bits_value(self@)
    }

    /// Canonical form: exactly `FIELD_SIZE_BITS` bits, value below the modulus.
    pub open spec fn inv(self) -> bool {
        self@.len() == FIELD_SIZE_BITS && self.value() < field_modulus()
    }

    /// Packs at most `FIELD_DATA_BITS` little-endian data bits into a field
    /// element, zero-extending to the full bit width.
    pub fn from_data_bits(data: &Vec<bool>) -> (r: Option<FieldElement>)
        ensures
            r is Some <==> data@.len() <= FIELD_DATA_BITS,
            r matches Some(f) ==> {
                &&& f.inv()
                &&& f@ == data@ + Seq::new((FIELD_SIZE_BITS - data@.len()) as nat, |i: int| false)
                &&& f.value() == bits_value(data@)
            },
    {
        if data.len() <= FIELD_DATA_BITS {
            let mut v: Vec<bool> = data.clone();
            while v.len() < FIELD_SIZE_BITS
                invariant
                    data@.len() <= v@.len() <= FIELD_SIZE_BITS,
                    v@ == data@ + Seq::new((v@.len() - data@.len()) as nat, |i: int| false),
                decreases FIELD_SIZE_BITS - v@.len(),
            {
                v.push(false);
                proof {
                    assert(v@ =~= data@ + Seq::new((v@.len() - data@.len()) as nat, |i: int| false));
                }
            }
            proof {
                let pad = Seq::new((FIELD_SIZE_BITS - data@.len()) as nat, |i: int| false);
                lemma_bits_value_zero_extend(data@, pad);
                lemma_bits_value_bounds(data@);
                lemma_pow2_field_data_bits();
                if data@.len() < FIELD_DATA_BITS {
                    lemma_pow2_strictly_increases(data@.len(), FIELD_DATA_BITS as nat);
                }
            }
            Some(FieldElement { bits: v })
        } else {
            None
        }
    }

    /// The canonical little-endian bits of this element.
    pub fn to_bits_le(&self) -> (r: Vec<bool>)
        ensures
            r@ == self@,
    {
        self.bits.clone()
    }
}

/// A scalar of the group's prime-order subgroup, held as its canonical
/// little-endian bits.
#[derive(Clone, Debug, PartialEq, Eq)]
pub struct Scalar {
    pub(crate) bits: Vec<bool>,
}

impl View for Scalar {
    type V = Seq<bool>;

    closed spec fn view(&self) -> Seq<bool> {
        self.bits@
    }
}

impl Scalar {
    /// The integer value of this scalar.
    pub open spec fn value(self) -> int {
        bits_value(self@)
    }

    /// Canonical form: exactly `SCALAR_SIZE_BITS` bits, value below the
    /// scalar modulus.
    pub open spec fn inv(self) -> bool {
        self@.len() == SCALAR_SIZE_BITS && self.value() < scalar_modulus()
    }

    /// Packs at most `SCALAR_DATA_BITS` little-endian data bits into a scalar,
    /// zero-extending to the full bit width.
    pub fn from_data_bits(data: &Vec<bool>) -> (r: Option<Scalar>)
        ensures
            r is Some <==> data@.len() <= SCALAR_DATA_BITS,
            r matches Some(s) ==> {
                &&& s.inv()
                &&& s.value() == bits_value(data@)
            },
    {
        if data.len() <= SCALAR_DATA_BITS {
            let mut v: Vec<bool> = data.clone();
            while v.len() < SCALAR_SIZE_BITS
                invariant
                    data@.len() <= v@.len() <= SCALAR_SIZE_BITS,
                    v@ == data@ + Seq::new((v@.len() - data@.len()) as nat, |i: int| false),
                decreases SCALAR_SIZE_BITS - v@.len(),
            {
                v.push(false);
                proof {
                    assert(v@ =~= data@ + Seq::new((v@.len() - data@.len()) as nat, |i: int| false));
                }
            }
            proof {
                lemma_bits_value_zero_extend(
                    data@,
                    Seq::new((SCALAR_SIZE_BITS - data@.len()) as nat, |i: int| false),
                );
                lemma_bits_value_bounds(data@);
                lemma_pow2_scalar_data_bits();
                if data@.len() < SCALAR_DATA_BITS {
                    lemma_pow2_strictly_increases(data@.len(), SCALAR_DATA_BITS as nat);
                }
            }
            Some(Scalar { bits: v })
        } else {
            None
        }
    }
}

/// A point of the elliptic-curve group, held by its affine coordinates.
#[derive(Clone, Debug, PartialEq, Eq)]
pub struct GroupPoint {
    /// The affine x-coordinate.
    pub x: FieldElement,
    /// The affine y-coordinate.
    pub y: FieldElement,
}

impl GroupPoint {
    /// Both coordinates are canonical field elements.
    pub open spec fn inv(self) -> bool {
        self.x.inv() && self.y.inv()
    }

    /// The integer value of the affine x-coordinate.
    pub open spec fn x_value(self) -> int {
        self.x.value()
    }

    /// The integer value of the affine y-coordinate.
    pub open spec fn y_value(self) -> int {
        self.y.value()
    }
}

/// Relies on the curve library's base-field addition: the sum of two
/// canonical field elements, reduced modulo the field order, in canonical
/// little-endian bits.
#[verifier::external_body]
pub(crate) fn field_add(a: &FieldElement, b: &FieldElement) -> (r: FieldElement)
    requires
        a.inv(),
        b.inv(),
    ensures
        r.inv(),
        r.value() == (a.value() + b.value()) % field_modulus(),
{
    let fa = Field::<Console>::from_bits_le(&a.bits).unwrap();
    let fb = Field::<Console>::from_bits_le(&b.bits).unwrap();
    FieldElement { bits: (fa + fb).to_bits_le() }
}

/// Relies on the curve library's base-field subtraction: the difference of
/// two canonical field elements, reduced modulo the field order, in canonical
/// little-endian bits.
#[verifier::external_body]
pub(crate) fn field_sub(a: &FieldElement, b: &FieldElement) -> (r: FieldElement)
    requires
        a.inv(),
        b.inv(),
    ensures
        r.inv(),
        r.value() == (a.value() - b.value()) % field_modulus(),
{
    let fa = Field::<Console>::from_bits_le(&a.bits).unwrap();
    let fb = Field::<Console>::from_bits_le(&b.bits).unwrap();
    FieldElement { bits: (fa - fb).to_bits_le() }
}

} // verus!
