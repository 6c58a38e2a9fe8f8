//! The domain-separated Poseidon sponge hash with rate 8, as the network's
//! content-addressing digest and one-time-pad generator. What the hash
//! returns is a pure function of the input values alone; it is named by the
//! two uninterpreted functions below and supplied by the algorithms library
//! behind the trusted wrappers.

use crate::bits::{bytes_bits, bytes_to_bits, bits_value};
use crate::field::{FieldElement, FIELD_DATA_BITS};
use snarkvm_console_algorithms::Poseidon8;
use snarkvm_console_network_environment::{Console, FromBits, Hash as ConsoleHash, HashMany as ConsoleHashMany};
use snarkvm_console_types::Field;
use snarkvm_utilities::ToBits;
use vstd::prelude::*;

verus! {

/// The values of a sequence of field elements.
pub open spec fn field_values(s: Seq<FieldElement>) -> Seq<int> {
    s.map_values(|f: FieldElement| f.value())
}

/// What the rate-8 Poseidon hash under the domain "AleoPoseidon8" returns
/// for a sequence of field-element values: one digest value.
pub uninterp spec fn hash_psd8_of(inputs: Seq<int>) -> int;

/// What the many-output rate-8 Poseidon hash under the domain "AleoPoseidon8"
/// returns for a sequence of field-element values and an output count: the
/// sequence of output values, one per requested output.
pub uninterp spec fn hash_many_psd8_of(inputs: Seq<int>, count: int) -> Seq<int>;

/// Hashes field elements to one field element.
///
/// Relies on the algorithms library's `Poseidon8::hash` under the fixed
/// domain "AleoPoseidon8": a deterministic function of the input values.
#[verifier::external_body]
pub(crate) fn hash_psd8(inputs: &Vec<FieldElement>) -> (r: FieldElement)
    requires
        forall|i: int| 0 <= i < inputs@.len() ==> (#[trigger] inputs@[i]).inv(),
    ensures
        r.inv(),
        r.value() == hash_psd8_of(field_values(inputs@)),
{
    let mut fields: Vec<Field<Console>> = Vec::new();
    for f in inputs.iter() {
        fields.push(Field::from_bits_le(&f.bits).unwrap());
    }
    let digest = Poseidon8::<Console>::setup("AleoPoseidon8").unwrap().hash(&fields).unwrap();
    FieldElement { bits: digest.to_bits_le() }
}

/// Hashes field elements to `count` field elements.
///
/// Relies on the algorithms library's `Poseidon8::hash_many` under the fixed
/// domain "AleoPoseidon8": a deterministic function of the input values and
/// the output count, returning exactly `count` field elements.
#[verifier::external_body]
pub(crate) fn hash_many_psd8(inputs: &Vec<FieldElement>, count: u16) -> (r: Vec<FieldElement>)
    requires
        forall|i: int| 0 <= i < inputs@.len() ==> (#[trigger] inputs@[i]).inv(),
    ensures
        r@.len() == count,
        forall|i: int| 0 <= i < r@.len() ==> (#[trigger] r@[i]).inv(),
        field_values(r@) == hash_many_psd8_of(field_values(inputs@), count as int),
{
    let mut fields: Vec<Field<Console>> = Vec::new();
    for f in inputs.iter() {
        fields.push(Field::from_bits_le(&f.bits).unwrap());
    }
    let outputs = Poseidon8::<Console>::setup("AleoPoseidon8").unwrap().hash_many(&fields, count);
    let mut r: Vec<FieldElement> = Vec::new();
    for o in outputs.iter() {
        r.push(FieldElement { bits: o.to_bits_le() });
    }
    r
}

/// The bytes of the domain string "AleoSymmetricEncryption0".
pub open spec fn encryption_domain_bytes() -> Seq<u8> {
    seq![
        0x41u8, 0x6cu8, 0x65u8, 0x6fu8, 0x53u8, 0x79u8, 0x6du8, 0x6du8, 0x65u8, 0x74u8, 0x72u8,
        0x69u8, 0x63u8, 0x45u8, 0x6eu8, 0x63u8, 0x72u8, 0x79u8, 0x70u8, 0x74u8, 0x69u8, 0x6fu8,
        0x6eu8, 0x30u8,
    ]
}

/// The value of the encryption domain separator: the little-endian bytes of
/// "AleoSymmetricEncryption0" read as a field element.
pub open spec fn encryption_domain_value() -> int {
    bits_value(bytes_bits(encryption_domain_bytes()))
}

/// The network's domain separator under which the one-time pad is derived.
pub(crate) fn encryption_domain() -> (r: FieldElement)
    ensures
        r.inv(),
        r.value() == encryption_domain_value(),
{
    let bytes: Vec<u8> = vec![
        0x41u8, 0x6cu8, 0x65u8, 0x6fu8, 0x53u8, 0x79u8, 0x6du8, 0x6du8, 0x65u8, 0x74u8, 0x72u8,
        0x69u8, 0x63u8, 0x45u8, 0x6eu8, 0x63u8, 0x72u8, 0x79u8, 0x70u8, 0x74u8, 0x69u8, 0x6fu8,
        0x6eu8, 0x30u8,
    ];
    proof {
        assert(bytes@ =~= encryption_domain_bytes());
    }
    let bits = bytes_to_bits(&bytes);
    match FieldElement::from_data_bits(&bits) {
        Some(f) => f,
        None => vstd::pervasive::unreached(),
    }
}

} // verus!
