//! The data unit: a tagged union of plaintext application data and encrypted
//! field elements, with its validity invariant, its content-addressing
//! digest, and the encrypt and decrypt transforms.

use crate::bits::{bits_value, lemma_value_bits_of, value_bits};
use crate::codec::{
    decode_bits, decode_spec, encode_bits, encode_spec, encode_values, fields_bits,
    lemma_codec_round_trip, lemma_encode_chunks_count, lemma_encode_chunks_wf,
};
use crate::field::{
    field_add, field_modulus, field_sub, FieldElement, GroupPoint, Scalar, FIELD_DATA_BITS,
    FIELD_SIZE_BITS, lemma_pow2_field_data_bits,
};
use crate::group::{gen_mul_of, mul_x_of, point_x_mul};
use crate::poseidon::{
    encryption_domain, encryption_domain_value, field_values, hash_many_psd8, hash_many_psd8_of,
    hash_psd8, hash_psd8_of,
};
use vstd::arithmetic::div_mod::{
    lemma_small_mod, lemma_sub_mod_noop, lemma_sub_mod_noop_right,
};
use vstd::prelude::*;

verus! {

/// The visibility of a value in the surrounding execution model.
#[derive(Clone, Copy, Debug, PartialEq, Eq)]
pub enum Mode {
    /// A transparent constant.
    Constant,
    /// A transparent public value.
    Public,
    /// A confidential value.
    Private,
}

impl Mode {
    /// Returns `true` if the mode is `Constant`.
    pub fn is_constant(&self) -> (r: bool)
        ensures
            r == (*self == Mode::Constant),
    {
        matches!(self, Mode::Constant)
    }

    /// Returns `true` if the mode is `Public`.
    pub fn is_public(&self) -> (r: bool)
        ensures
            r == (*self == Mode::Public),
    {
        matches!(self, Mode::Public)
    }

    /// Returns `true` if the mode is `Private`.
    pub fn is_private(&self) -> (r: bool)
        ensures
            r == (*self == Mode::Private),
    {
        matches!(self, Mode::Private)
    }
}

/// The failures the data unit surfaces to its callers.
#[derive(Clone, Copy, Debug, PartialEq, Eq)]
pub enum DataError {
    /// A bit chunk could not be packed into a field element.
    EncodingFailure,
    /// The shared secret could not be derived from the given point and scalar.
    EncryptionFailure,
    /// The unit does not satisfy the validity invariant.
    InvalidData,
}

/// The capability required of application data: a deterministic little-endian
/// bit serialisation, and a reconstruction that inverts it on its image.
pub trait DataType: Sized {
    /// The bit sequence that `to_bits_le` returns.
    spec fn spec_bits(&self) -> Seq<bool>;

    /// Serialises this value as little-endian bits.
    fn to_bits_le(&self) -> (r: Vec<bool>)
        ensures
            r@ == self.spec_bits(),
    ;

    /// Reconstructs a value from little-endian bits: on any bit sequence that
    /// some value serialises to, the reconstruction carries exactly those
    /// bits.
    fn from_bits_le(bits: &Vec<bool>) -> (r: Self)
        ensures
            (exists|x: Self| x.spec_bits() == bits@) ==> r.spec_bits() == bits@,
    ;
}

/// A unit of program data: either a plaintext payload or the field elements
/// of its encryption, each tagged with a visibility mode.
#[derive(Clone, Debug, PartialEq, Eq)]
pub enum Data<D: DataType> {
    /// Publicly-visible data.
    Plaintext(D, Mode),
    /// Private data encrypted under the account owner's address.
    Ciphertext(Vec<FieldElement>, Mode),
}

impl<D: DataType> Data<D> {
    /// The visibility mode of the unit.
    pub open spec fn spec_mode(self) -> Mode {
        match self {
            Data::Plaintext(_, m) => m,
            Data::Ciphertext(_, m) => m,
        }
    }

    /// The validity invariant: a plaintext unit is transparent (`Constant` or
    /// `Public`), a ciphertext unit is `Private`.
    pub open spec fn spec_valid(self) -> bool {
        match self {
            Data::Plaintext(_, m) => m == Mode::Constant || m == Mode::Public,
            Data::Ciphertext(_, m) => m == Mode::Private,
        }
    }

    /// Well-formedness: every carried field element is canonical.
    pub open spec fn inv(self) -> bool {
        match self {
            Data::Plaintext(_, _) => true,
            Data::Ciphertext(c, _) => forall|i: int|
                0 <= i < c@.len() ==> (#[trigger] c@[i]).inv(),
        }
    }

    /// Whether the unit is a private plaintext, the only case that encryption
    /// masks.
    pub open spec fn spec_private_plaintext(self) -> bool {
        self matches Data::Plaintext(_, Mode::Private)
    }

    /// The number of field elements the unit hands to the pad derivation
    /// stays within the hash's output-count type.
    pub open spec fn spec_mask_count_ok(self) -> bool {
        match self {
            Data::Plaintext(d, m) => m == Mode::Private ==> d.spec_bits().len() + 1
                <= FIELD_DATA_BITS * 0xffff,
            Data::Ciphertext(c, _) => c@.len() <= 0xffff,
        }
    }

    /// Returns the mode of the data.
    pub fn mode(&self) -> (r: Mode)
        ensures
            r == self.spec_mode(),
    {
        match self {
            Data::Plaintext(_, mode) => *mode,
            Data::Ciphertext(_, mode) => *mode,
        }
    }

    /// Returns `true` if the enum variant corresponds to the correct mode.
    /// Otherwise, the method returns `false`.
    pub fn is_valid(&self) -> (r: bool)
        ensures
            r == self.spec_valid(),
    {
        match self {
            Data::Plaintext(_, mode) => mode.is_constant() || mode.is_public(),
            Data::Ciphertext(_, mode) => mode.is_private(),
        }
    }

    /// Returns a list of field elements encoding the given data. Packing a
    /// chunk always succeeds, as chunks are cut below the field's capacity;
    /// the error branch exists as a defensive contract.
    pub fn encode(data: &D) -> (r: Result<Vec<FieldElement>, DataError>)
        ensures
            r matches Ok(v) && fields_bits(v@) == encode_spec(data.spec_bits()) && (forall|i: int|
                0 <= i < v@.len() ==> (#[trigger] v@[i]).inv()),
    {
        let bits = data.to_bits_le();
        Ok(encode_bits(&bits))
    }

    /// Returns the recovered data from encoded field elements.
    pub fn decode(fields: &Vec<FieldElement>) -> (r: D)
        requires
            forall|i: int| 0 <= i < fields@.len() ==> (#[trigger] fields@[i]).inv(),
        ensures
            (exists|x: D| x.spec_bits() == decode_spec(fields_bits(fields@)))
                ==> r.spec_bits() == decode_spec(fields_bits(fields@)),
    {
        let bits = decode_bits(fields);
        D::from_bits_le(&bits)
    }

    /// Returns the data ID: the Poseidon digest of the unit's canonical
    /// encoding for a plaintext unit, or of its field elements for a
    /// ciphertext unit. Fails exactly on units violating the validity
    /// invariant.
    pub fn to_data_id(&self) -> (r: Result<FieldElement, DataError>)
        requires
            self.inv(),
        ensures
            r is Ok <==> self.spec_valid(),
            !self.spec_valid() ==> r == Err::<FieldElement, DataError>(DataError::InvalidData),
            self matches Data::Plaintext(d, _) ==> (self.spec_valid() ==> (r matches Ok(f)
                && f.inv() && f.value() == hash_psd8_of(encode_values(d.spec_bits())))),
            self matches Data::Ciphertext(c, _) ==> (self.spec_valid() ==> (r matches Ok(f)
                && f.inv() && f.value() == hash_psd8_of(field_values(c@)))),
    {
        if self.is_valid() {
            match self {
                Data::Plaintext(data, _) => {
                    let fields = match Self::encode(data) {
                        Ok(v) => v,
                        Err(_) => {
                            return Err(DataError::EncodingFailure);
                        },
                    };
                    proof {
                        assert(field_values(fields@) =~= encode_values(data.spec_bits()));
                    }
                    Ok(hash_psd8(&fields))
                },
                Data::Ciphertext(data, _) => Ok(hash_psd8(data)),
            }
        } else {
            Err(DataError::InvalidData)
        }
    }
}

/// The one-time pad for a given shared secret and output count: the
/// many-output Poseidon hash of the encryption domain and the secret.
pub open spec fn pad_values(secret: int, n: int) -> Seq<int> {
    hash_many_psd8_of(seq![encryption_domain_value(), secret], n)
}

/// The ciphertext values that masking plaintext values under a shared secret
/// produces: element-wise field addition of the pad.
pub open spec fn mask_values(p: Seq<int>, secret: int) -> Seq<int> {
    Seq::new(p.len(), |i: int| (p[i] + pad_values(secret, p.len() as int)[i]) % field_modulus())
}

/// The plaintext values that unmasking ciphertext values under a shared
/// secret recovers: element-wise field subtraction of the pad.
pub open spec fn unmask_values(c: Seq<int>, secret: int) -> Seq<int> {
    Seq::new(c.len(), |i: int| (c[i] - pad_values(secret, c.len() as int)[i]) % field_modulus())
}

/// What encrypting a data payload under a shared secret produces.
pub open spec fn encrypt_values(data: Seq<bool>, secret: int) -> Seq<int> {
    mask_values(encode_values(data), secret)
}

/// The data bits that decrypting ciphertext values under a shared secret
/// recovers.
pub open spec fn decrypt_bits(cipher: Seq<int>, secret: int) -> Seq<bool> {
    decode_spec(
        unmask_values(cipher, secret).map_values(
            |v: int| value_bits(v, FIELD_SIZE_BITS as nat),
        ),
    )
}

impl<D: DataType> Data<D> {
    /// Encrypts `self` under the given address and randomizer, turning it
    /// into `Data::Ciphertext(..)` if the mode is private; any other unit is
    /// returned unchanged. A successful encryption of a private plaintext
    /// always satisfies the validity invariant; it fails exactly when the
    /// address coordinates do not describe a group element.
    pub fn encrypt(self, address: &GroupPoint, randomizer: &Scalar) -> (r: Result<
        Data<D>,
        DataError,
    >)
        requires
            self.inv(),
            address.inv(),
            randomizer.inv(),
            self.spec_mask_count_ok(),
        ensures
            !self.spec_private_plaintext() ==> r == Ok::<Data<D>, DataError>(self),
            self matches Data::Plaintext(d, Mode::Private) ==> match mul_x_of(
                address.x_value(),
                address.y_value(),
                randomizer.value(),
            ) {
                Some(secret) => {
                    &&& r matches Ok(u)
                    &&& u.spec_valid()
                    &&& u.inv()
                    &&& u matches Data::Ciphertext(c, Mode::Private)
                    &&& field_values(c@) == encrypt_values(d.spec_bits(), secret)
                },
                None => r == Err::<Data<D>, DataError>(DataError::EncryptionFailure),
            },
    {
        match self {
            Data::Plaintext(data, Mode::Private) => {
                let fields = match Self::encode(&data) {
                    Ok(v) => v,
                    Err(_) => {
                        return Err(DataError::EncodingFailure);
                    },
                };
                match point_x_mul(address, randomizer) {
                    Some(secret) => {
                        proof {
                            lemma_encode_chunks_count(data.spec_bits().push(true));
                        }
                        let count = fields.len() as u16;
                        let mut pad_input: Vec<FieldElement> = Vec::new();
                        pad_input.push(encryption_domain());
                        let ghost secret_value = secret.value();
                        pad_input.push(secret);
                        proof {
                            assert(field_values(pad_input@) =~= seq![
                                encryption_domain_value(),
                                secret_value,
                            ]);
                        }
                        let pad = hash_many_psd8(&pad_input, count);
                        let mut cipher: Vec<FieldElement> = Vec::new();
                        let mut i: usize = 0;
                        while i < fields.len()
                            invariant
                                i <= fields@.len(),
                                pad@.len() == fields@.len(),
                                cipher@.len() == i,
                                forall|k: int|
                                    0 <= k < fields@.len() ==> (#[trigger] fields@[k]).inv(),
                                forall|k: int| 0 <= k < pad@.len() ==> (#[trigger] pad@[k]).inv(),
                                forall|k: int|
                                    0 <= k < cipher@.len() ==> (#[trigger] cipher@[k]).inv(),
                                forall|k: int|
                                    0 <= k < cipher@.len() ==> (#[trigger] cipher@[k]).value() == (
                                    fields@[k].value() + pad@[k].value()) % field_modulus(),
                            decreases fields@.len() - i,
                        {
                            let c = field_add(&fields[i], &pad[i]);
                            cipher.push(c);
                            i = i + 1;
                        }
                        proof {
                            let p = encode_values(data.spec_bits());
                            assert(field_values(fields@) =~= p);
                            assert(field_values(pad@) == pad_values(secret_value, p.len() as int));
                            assert(field_values(cipher@) =~= encrypt_values(
                                data.spec_bits(),
                                secret_value,
                            ));
                        }
                        Ok(Data::Ciphertext(cipher, Mode::Private))
                    },
                    None => Err(DataError::EncryptionFailure),
                }
            },
            u => Ok(u),
        }
    }

    /// Decrypts `self` into plaintext using the given view key and ephemeral
    /// point, turning `Data::Ciphertext(..)` into `Data::Plaintext(..)`; a
    /// plaintext unit is returned unchanged. The mode is carried through
    /// unchanged, so the output does not necessarily satisfy the validity
    /// invariant. It fails exactly when the ephemeral point's coordinates do
    /// not describe a group element.
    pub fn decrypt(self, view_key: &Scalar, nonce: &GroupPoint) -> (r: Result<Data<D>, DataError>)
        requires
            self.inv(),
            view_key.inv(),
            nonce.inv(),
            self.spec_mask_count_ok(),
        ensures
            self matches Data::Plaintext(_, _) ==> r == Ok::<Data<D>, DataError>(self),
            self matches Data::Ciphertext(c, m) ==> match mul_x_of(
                nonce.x_value(),
                nonce.y_value(),
                view_key.value(),
            ) {
                Some(secret) => {
                    &&& r matches Ok(u)
                    &&& u matches Data::Plaintext(d, dm)
                    &&& dm == m
                    &&& (exists|x: D| x.spec_bits() == decrypt_bits(field_values(c@), secret))
                        ==> d.spec_bits() == decrypt_bits(field_values(c@), secret)
                },
                None => r == Err::<Data<D>, DataError>(DataError::EncryptionFailure),
            },
    {
        match self {
            Data::Ciphertext(cipher, mode) => {
                match point_x_mul(nonce, view_key) {
                    Some(secret) => {
                        let count = cipher.len() as u16;
                        let mut pad_input: Vec<FieldElement> = Vec::new();
                        pad_input.push(encryption_domain());
                        let ghost secret_value = secret.value();
                        pad_input.push(secret);
                        proof {
                            assert(field_values(pad_input@) =~= seq![
                                encryption_domain_value(),
                                secret_value,
                            ]);
                        }
                        let pad = hash_many_psd8(&pad_input, count);
                        let mut plain: Vec<FieldElement> = Vec::new();
                        let mut i: usize = 0;
                        while i < cipher.len()
                            invariant
                                i <= cipher@.len(),
                                pad@.len() == cipher@.len(),
                                plain@.len() == i,
                                forall|k: int|
                                    0 <= k < cipher@.len() ==> (#[trigger] cipher@[k]).inv(),
                                forall|k: int| 0 <= k < pad@.len() ==> (#[trigger] pad@[k]).inv(),
                                forall|k: int|
                                    0 <= k < plain@.len() ==> (#[trigger] plain@[k]).inv(),
                                forall|k: int|
                                    0 <= k < plain@.len() ==> (#[trigger] plain@[k]).value() == (
                                    cipher@[k].value() - pad@[k].value()) % field_modulus(),
                            decreases cipher@.len() - i,
                        {
                            let p = field_sub(&cipher[i], &pad[i]);
                            plain.push(p);
                            i = i + 1;
                        }
                        proof {
                            assert(fields_bits(plain@) =~= unmask_values(
                                field_values(cipher@),
                                secret_value,
                            ).map_values(|v: int| value_bits(v, FIELD_SIZE_BITS as nat))) by {
                                assert forall|k: int| 0 <= k < plain@.len() implies fields_bits(
                                    plain@,
                                )[k] == value_bits(
                                    unmask_values(field_values(cipher@), secret_value)[k],
                                    FIELD_SIZE_BITS as nat,
                                ) by {
                                    lemma_value_bits_of(plain@[k]@);
                                }
                            }
                        }
                        Ok(Data::Plaintext(Self::decode(&plain), mode))
                    },
                    None => Err(DataError::EncryptionFailure),
                }
            },
            u => Ok(u),
        }
    }
}

/// One masking step is undone by the matching unmasking step: adding a pad
/// value modulo the field order and subtracting it again returns the
/// plaintext value.
proof fn lemma_mod_mask_cancel(a: int, r: int, m: int)
    requires
        0 < m,
        0 <= a < m,
    ensures
        ((a + r) % m - r) % m == a,
{
    lemma_sub_mod_noop_right((a + r) % m, r, m);
    assert(((a + r) % m - r % m) % m == ((a + r) % m - r) % m) by {
        lemma_sub_mod_noop_right((a + r) % m, r % m, m);
        vstd::arithmetic::div_mod::lemma_mod_twice(r, m);
    }
    lemma_sub_mod_noop(a + r, r, m);
    lemma_small_mod(a as nat, m as nat);
}

/// Law: unmasking with the shared secret used for masking recovers the
/// plaintext values, for any values below the field order.
pub proof fn lemma_mask_unmask(p: Seq<int>, secret: int)
    requires
        forall|i: int| 0 <= i < p.len() ==> 0 <= #[trigger] p[i] < field_modulus(),
    ensures
        unmask_values(mask_values(p, secret), secret) =~= p,
{
    let c = mask_values(p, secret);
    assert forall|i: int| 0 <= i < p.len() implies unmask_values(c, secret)[i] == p[i] by {
        lemma_mod_mask_cancel(p[i], pad_values(secret, p.len() as int)[i], field_modulus());
    }
}

/// Law: decrypting with the shared secret used for encryption recovers the
/// original data bits, whatever data and secret. Together with the matching
/// key derivations (see `g_scalar_multiply`), decryption inverts encryption.
pub proof fn lemma_encrypt_decrypt_inverse(data: Seq<bool>, secret: int)
    ensures
        decrypt_bits(encrypt_values(data, secret), secret) == data,
{
    let p = encode_values(data);
    lemma_encode_chunks_wf(data.push(true));
    lemma_pow2_field_data_bits();
    assert forall|i: int| 0 <= i < p.len() implies 0 <= #[trigger] p[i] < field_modulus() by {
        assert(p[i] == bits_value(encode_spec(data)[i]));
    }
    lemma_mask_unmask(p, secret);
    let u = unmask_values(encrypt_values(data, secret), secret);
    assert(u.map_values(|v: int| value_bits(v, FIELD_SIZE_BITS as nat)) =~= encode_spec(data)) by {
        assert forall|i: int| 0 <= i < u.len() implies u.map_values(
            |v: int| value_bits(v, FIELD_SIZE_BITS as nat),
        )[i] == encode_spec(data)[i] by {
            lemma_value_bits_of(encode_spec(data)[i]);
        }
    }
    lemma_codec_round_trip(data);
}

/// Law: where the address is the generator times the view scalar and the
/// ephemeral point is the generator times the randomizer, the encrypting and
/// the viewing side derive the same shared secret (the Diffie-Hellman
/// agreement stated by `g_scalar_multiply`), and decryption recovers the
/// original data bits.
pub proof fn lemma_encrypt_decrypt_with_matching_keys(
    data: Seq<bool>,
    view_scalar: int,
    randomizer: int,
)
    ensures
        ({
            let address = gen_mul_of(view_scalar);
            let nonce = gen_mul_of(randomizer);
            mul_x_of(address.0, address.1, randomizer) == mul_x_of(nonce.0, nonce.1, view_scalar)
                ==> match mul_x_of(address.0, address.1, randomizer) {
                    Some(secret) => decrypt_bits(
                        encrypt_values(data, secret),
                        secret,
                    ) == data,
                    None => true,
                }
        }),
{
    let address = gen_mul_of(view_scalar);
    if mul_x_of(address.0, address.1, randomizer) is Some {
        let secret = mul_x_of(address.0, address.1, randomizer)->Some_0;
        lemma_encrypt_decrypt_inverse(data, secret);
    }
}

/// Law: the validity table. A plaintext unit is valid exactly under the
/// `Constant` and `Public` tags, a ciphertext unit exactly under `Private`.
pub proof fn lemma_validity_table<D: DataType>(payload: D, fields: Vec<FieldElement>)
    ensures
        Data::Plaintext(payload, Mode::Constant).spec_valid(),
        Data::Plaintext(payload, Mode::Public).spec_valid(),
        !Data::Plaintext(payload, Mode::Private).spec_valid(),
        Data::<D>::Ciphertext(fields, Mode::Private).spec_valid(),
        !Data::<D>::Ciphertext(fields, Mode::Constant).spec_valid(),
        !Data::<D>::Ciphertext(fields, Mode::Public).spec_valid(),
{
}

/// Law: under one shared secret, two ciphertexts differ at an index exactly
/// where the plaintext values differ there.
pub proof fn lemma_mask_distinct(p: Seq<int>, q: Seq<int>, secret: int, i: int)
    requires
        p.len() == q.len(),
        0 <= i < p.len(),
        0 <= p[i] < field_modulus(),
        0 <= q[i] < field_modulus(),
    ensures
        (mask_values(p, secret)[i] == mask_values(q, secret)[i]) <==> p[i] == q[i],
{
    let r = pad_values(secret, p.len() as int)[i];
    lemma_mod_mask_cancel(p[i], r, field_modulus());
    lemma_mod_mask_cancel(q[i], r, field_modulus());
}

} // verus!
