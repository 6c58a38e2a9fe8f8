use aleo_data::data::{Data, DataError, Mode};
use aleo_data::field::{FieldElement, GroupPoint, Scalar};
use aleo_data::group::g_scalar_multiply;

/// A small deterministic pseudorandom generator for test inputs.
struct XorShift(u64);

impl XorShift {
    fn new(seed: u64) -> Self {
        XorShift(seed | 1)
    }

    fn next(&mut self) -> u64 {
        let mut x = self.0;
        x ^= x << 13;
        x ^= x >> 7;
        x ^= x << 17;
        self.0 = x;
        x
    }

    fn bytes(&mut self, n: usize) -> Vec<u8> {
        (0..n).map(|_| (self.next() & 0xff) as u8).collect()
    }

    fn bits(&mut self, n: usize) -> Vec<bool> {
        (0..n).map(|_| self.next() & 1 == 1).collect()
    }

    fn scalar(&mut self) -> Scalar {
        Scalar::from_data_bits(&self.bits(250)).unwrap()
    }
}

fn field_element(bits: Vec<bool>) -> FieldElement {
    FieldElement::from_data_bits(&bits).unwrap()
}

fn roundtrip(message: Vec<u8>) {
    let fields = Data::<Vec<u8>>::encode(&message).unwrap();
    let recovered: Vec<u8> = Data::<Vec<u8>>::decode(&fields);
    assert_eq!(recovered, message);
}

#[test]
fn test_codec_round_trip_empty() {
    roundtrip(Vec::new());
}

#[test]
fn test_codec_round_trip_small() {
    roundtrip(vec![0x41, 0x42, 0x43]);
    roundtrip(vec![0x00]);
    roundtrip(vec![0xff; 7]);
}

#[test]
fn test_codec_round_trip_chunk_boundary() {
    // 63 bytes are 504 bits, exactly two data chunks: the terminus bit starts
    // a final chunk of its own.
    let mut rng = XorShift::new(7);
    roundtrip(rng.bytes(63));
    // One bit less / more than the boundary.
    roundtrip(rng.bytes(62));
    roundtrip(rng.bytes(64));
}

#[test]
fn test_codec_round_trip_random() {
    let mut rng = XorShift::new(42);
    for n in [1usize, 31, 32, 100, 128, 1024] {
        roundtrip(rng.bytes(n));
    }
}

#[test]
fn test_codec_trailing_zero_bytes() {
    // Trailing zero bytes survive the round trip: the terminus bit keeps them
    // apart from the padding.
    roundtrip(vec![1, 0, 0, 0, 0]);
    roundtrip(vec![0, 0, 0]);
}

#[test]
fn test_encode_chunk_count() {
    // 63 bytes + terminus = 505 bits -> 3 chunks of 252 bits.
    let fields = Data::<Vec<u8>>::encode(&vec![0xabu8; 63]).unwrap();
    assert_eq!(fields.len(), 3);
    // Empty data -> just the terminus bit -> 1 chunk.
    let fields = Data::<Vec<u8>>::encode(&Vec::new()).unwrap();
    assert_eq!(fields.len(), 1);
}

fn ciphertext_unit(mode: Mode) -> Data<Vec<u8>> {
    Data::Ciphertext(vec![field_element(vec![true, false, true])], mode)
}

#[test]
fn test_validity_invariant() {
    let payload = vec![1u8, 2, 3];
    assert!(Data::<Vec<u8>>::Plaintext(payload.clone(), Mode::Constant).is_valid());
    assert!(Data::<Vec<u8>>::Plaintext(payload.clone(), Mode::Public).is_valid());
    assert!(!Data::<Vec<u8>>::Plaintext(payload.clone(), Mode::Private).is_valid());
    assert!(ciphertext_unit(Mode::Private).is_valid());
    assert!(!ciphertext_unit(Mode::Constant).is_valid());
    assert!(!ciphertext_unit(Mode::Public).is_valid());
}

#[test]
fn test_mode_accessor() {
    let payload = vec![9u8];
    assert_eq!(Data::<Vec<u8>>::Plaintext(payload, Mode::Public).mode(), Mode::Public);
    assert_eq!(ciphertext_unit(Mode::Private).mode(), Mode::Private);
}

#[test]
fn test_encrypt_noop_cases() {
    let mut rng = XorShift::new(3);
    let address = g_scalar_multiply(&rng.scalar());
    let randomizer = rng.scalar();

    let constant = Data::<Vec<u8>>::Plaintext(vec![1, 2, 3], Mode::Constant);
    assert_eq!(constant.clone().encrypt(&address, &randomizer).unwrap(), constant);

    let public = Data::<Vec<u8>>::Plaintext(vec![4, 5], Mode::Public);
    assert_eq!(public.clone().encrypt(&address, &randomizer).unwrap(), public);

    let cipher = ciphertext_unit(Mode::Private);
    assert_eq!(cipher.clone().encrypt(&address, &randomizer).unwrap(), cipher);
}

#[test]
fn test_decrypt_noop_on_plaintext() {
    let mut rng = XorShift::new(4);
    let nonce = g_scalar_multiply(&rng.scalar());
    let unit = Data::<Vec<u8>>::Plaintext(vec![7, 8], Mode::Public);
    assert_eq!(unit.clone().decrypt(&rng.scalar(), &nonce).unwrap(), unit);
}

#[test]
fn test_encrypt_and_decrypt() {
    // Generate a view key and derive the address from it.
    let mut rng = XorShift::new(1234);
    let view_key = rng.scalar();
    let address = g_scalar_multiply(&view_key);

    // Generate random plaintext data.
    let message = rng.bytes(1024);
    let plaintext = Data::Plaintext(message, Mode::Private);
    assert!(!plaintext.is_valid());

    // Encrypt the data.
    let randomizer = rng.scalar();
    let ciphertext = plaintext.clone().encrypt(&address, &randomizer).unwrap();
    assert!(ciphertext.is_valid());
    assert_ne!(ciphertext, plaintext);

    // Decrypt the data with the view key and the ephemeral point.
    let nonce = g_scalar_multiply(&randomizer);
    let candidate = ciphertext.decrypt(&view_key, &nonce).unwrap();
    assert_eq!(plaintext, candidate);
}

#[test]
fn test_decrypt_with_wrong_key() {
    let mut rng = XorShift::new(99);
    let view_key = rng.scalar();
    let address = g_scalar_multiply(&view_key);
    let message = rng.bytes(64);
    let plaintext = Data::Plaintext(message, Mode::Private);
    let randomizer = rng.scalar();
    let ciphertext = plaintext.clone().encrypt(&address, &randomizer).unwrap();
    let nonce = g_scalar_multiply(&randomizer);

    let wrong_key = rng.scalar();
    let candidate = ciphertext.decrypt(&wrong_key, &nonce).unwrap();
    assert_ne!(plaintext, candidate);
}

#[test]
fn test_encrypt_invalid_address_fails() {
    // (1, 1) does not lie on the curve, so no shared secret can be derived.
    let bad_point = GroupPoint {
        x: field_element(vec![true]),
        y: field_element(vec![true]),
    };
    let mut rng = XorShift::new(5);
    let unit = Data::<Vec<u8>>::Plaintext(vec![1, 2, 3], Mode::Private);
    assert_eq!(
        unit.encrypt(&bad_point, &rng.scalar()),
        Err(DataError::EncryptionFailure)
    );
}

#[test]
fn test_decrypt_invalid_nonce_fails() {
    let bad_point = GroupPoint {
        x: field_element(vec![true]),
        y: field_element(vec![true]),
    };
    let mut rng = XorShift::new(6);
    let unit = ciphertext_unit(Mode::Private);
    assert_eq!(
        unit.decrypt(&rng.scalar(), &bad_point),
        Err(DataError::EncryptionFailure)
    );
}

#[test]
fn test_diffusion_single_bit_flip() {
    // Flipping one bit of a 1024-bit message changes the ciphertext element
    // of the affected chunk and leaves every other element unchanged, since
    // the one-time pads of the two encryptions coincide.
    let mut rng = XorShift::new(2024);
    let view_key = rng.scalar();
    let address = g_scalar_multiply(&view_key);
    let randomizer = rng.scalar();

    let message = rng.bytes(128);
    let mut flipped = message.clone();
    flipped[40] ^= 0x10;
    // Bit 40 * 8 + 4 = 324 lies in the second 252-bit chunk.
    let affected_chunk = (40 * 8 + 4) / 252;

    let c1 = Data::Plaintext(message, Mode::Private).encrypt(&address, &randomizer).unwrap();
    let c2 = Data::Plaintext(flipped, Mode::Private).encrypt(&address, &randomizer).unwrap();
    let (f1, f2) = match (c1, c2) {
        (Data::Ciphertext(f1, _), Data::Ciphertext(f2, _)) => (f1, f2),
        _ => panic!("encryption of a private plaintext must yield ciphertext"),
    };
    assert_eq!(f1.len(), f2.len());
    for i in 0..f1.len() {
        if i == affected_chunk {
            assert_ne!(f1[i], f2[i]);
        } else {
            assert_eq!(f1[i], f2[i]);
        }
    }
}

#[test]
fn test_data_id_requires_validity() {
    let unit = Data::<Vec<u8>>::Plaintext(vec![1, 2, 3], Mode::Private);
    assert_eq!(unit.to_data_id(), Err(DataError::InvalidData));
    assert_eq!(ciphertext_unit(Mode::Public).to_data_id(), Err(DataError::InvalidData));
    assert_eq!(ciphertext_unit(Mode::Constant).to_data_id(), Err(DataError::InvalidData));
}

#[test]
fn test_data_id_deterministic() {
    let unit = Data::<Vec<u8>>::Plaintext(vec![1, 2, 3, 4], Mode::Public);
    let a = unit.to_data_id().unwrap();
    let b = unit.to_data_id().unwrap();
    assert_eq!(a, b);

    // The id binds the content: plaintext and ciphertext hash the same bytes
    // through the same digest, so a plaintext unit and the ciphertext unit
    // holding its encoding share their id.
    let fields = Data::<Vec<u8>>::encode(&vec![1u8, 2, 3, 4]).unwrap();
    let c = Data::<Vec<u8>>::Ciphertext(fields, Mode::Private).to_data_id().unwrap();
    assert_eq!(a, c);
}

#[test]
fn test_data_id_no_collisions() {
    // 46 distinct same-length units give 1035 pairs; no two ids collide.
    let mut rng = XorShift::new(777);
    let mut ids = Vec::new();
    for _ in 0..46 {
        let unit = Data::<Vec<u8>>::Plaintext(rng.bytes(16), Mode::Public);
        ids.push(unit.to_data_id().unwrap());
    }
    for i in 0..ids.len() {
        for j in (i + 1)..ids.len() {
            assert_ne!(ids[i], ids[j]);
        }
    }
}

#[test]
fn test_distinct_scalars_distinct_addresses() {
    let mut rng = XorShift::new(11);
    let a = g_scalar_multiply(&rng.scalar());
    let b = g_scalar_multiply(&rng.scalar());
    assert_ne!(a, b);
}

#[test]
fn test_field_element_size_limits() {
    assert!(FieldElement::from_data_bits(&vec![true; 252]).is_some());
    assert!(FieldElement::from_data_bits(&vec![true; 253]).is_none());
    assert!(Scalar::from_data_bits(&vec![true; 250]).is_some());
    assert!(Scalar::from_data_bits(&vec![true; 251]).is_none());
}

#[test]
fn test_field_element_bits_round_trip() {
    let bits = vec![true, false, true, true];
    let fe = field_element(bits.clone());
    let out = fe.to_bits_le();
    assert_eq!(out.len(), 253);
    assert_eq!(&out[..4], &bits[..]);
    assert!(out[4..].iter().all(|b| !b));
}
