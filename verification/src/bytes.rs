//! Raw little-endian bytes as application data: the byte vector's
//! serialisation instance, eight bits per byte.

use crate::bits::{bits_to_bytes, bytes_bits, bytes_to_bits};
use crate::data::DataType;
use vstd::prelude::*;

verus! {

impl DataType for Vec<u8> {
    open spec fn spec_bits(&self) -> Seq<bool> {
        bytes_bits(self@)
    }

    fn to_bits_le(&self) -> (r: Vec<bool>) {
        bytes_to_bits(self)
    }

    fn from_bits_le(bits: &Vec<bool>) -> (r: Self) {
        let r = bits_to_bytes(bits);
        proof {
            if exists|x: Vec<u8>| x.spec_bits() == bits@ {
                let x = choose|x: Vec<u8>| x.spec_bits() == bits@;
                assert(bits@.len() == 8 * x@.len());
                assert(r@.len() == x@.len());
                assert(bytes_bits(r@) =~= bits@);
            }
        }
        r
    }
}

} // verus!
