//! The prime fields in scope — each with a fixed modulus, bit length and
//! canonical little-endian encoding length — and field elements held as their
//! canonical encodings. Modular reduction of a byte string into a field is
//! delegated to the arkworks field implementations behind trusted wrappers.

use vstd::prelude::*;
use vstd::arithmetic::power2::{pow2, lemma_pow2_adds, lemma2_to64, lemma2_to64_rest};
use crate::bytes::{le_val, zero_bytes, copy_range, lemma_le_val_injective};
use ark_ff::{BigInteger, PrimeField};

verus! {

/// The prime fields this crate converts between. Every field here has an odd
/// bit length, so masking to a whole number of bytes stays below the modulus.
#[derive(Clone, Copy, PartialEq, Eq, Structural, Debug)]
pub enum FieldId {
    /// Scalar field of the twisted Edwards curve embedded in BN254 (251 bits).
    EdOnBn254Fr,
    /// Scalar field of BN254 (254 bits).
    Bn254Fr,
    /// Scalar field of the twisted Edwards curve embedded in BLS12-377 (251 bits).
    EdOnBls377Fr,
    /// Scalar field of BLS12-377 (253 bits).
    Bls377Fr,
    /// Base field of BLS12-377 (377 bits).
    Bls377Fq,
    /// Scalar field of the Jubjub curve embedded in BLS12-381 (252 bits).
    EdOnBls381Fr,
    /// Scalar field of BLS12-381 (255 bits).
    Bls381Fr,
}

/// The prime modulus of each field, as in the arkworks field definitions.
pub open spec fn field_modulus(id: FieldId) -> nat {
    match id {
        FieldId::EdOnBn254Fr => 2736030358979909402780800718157159386076813972158567259200215660948447373041nat,
        FieldId::Bn254Fr => 21888242871839275222246405745257275088548364400416034343698204186575808495617nat,
        FieldId::EdOnBls377Fr => 2111115437357092606062206234695386632838870926408408195193685246394721360383nat,
        FieldId::Bls377Fr => 8444461749428370424248824938781546531375899335154063827935233455917409239041nat,
        FieldId::Bls377Fq => 258664426012969094010652733694893533536393512754914660539884262666720468348340822774968888139573360124440321458177nat,
        FieldId::EdOnBls381Fr => 6554484396890773809930967563523245729705921265872317281365359162392183254199nat,
        FieldId::Bls381Fr => 52435875175126190479447740508185965837690552500527637822603658699938581184513nat,
    }
}

/// The bit length of each modulus.
pub open spec fn spec_size_in_bits(id: FieldId) -> nat {
    match id {
        FieldId::EdOnBn254Fr => 251,
        FieldId::Bn254Fr => 254,
        FieldId::EdOnBls377Fr => 251,
        FieldId::Bls377Fr => 253,
        FieldId::Bls377Fq => 377,
        FieldId::EdOnBls381Fr => 252,
        FieldId::Bls381Fr => 255,
    }
}

/// The length of the canonical little-endian encoding (the limb size the
/// arkworks big integers serialize to).
pub open spec fn spec_bytes_len(id: FieldId) -> nat {
    match id {
        FieldId::Bls377Fq => 48,
        _ => 32,
    }
}

/// The bit length of the modulus.
pub fn size_in_bits(id: FieldId) -> (r: usize)
    ensures
        r == spec_size_in_bits(id),
{
    match id {
        FieldId::EdOnBn254Fr => 251,
        FieldId::Bn254Fr => 254,
        FieldId::EdOnBls377Fr => 251,
        FieldId::Bls377Fr => 253,
        FieldId::Bls377Fq => 377,
        FieldId::EdOnBls381Fr => 252,
        FieldId::Bls381Fr => 255,
    }
}

/// The length of the canonical little-endian encoding.
pub fn bytes_len(id: FieldId) -> (r: usize)
    ensures
        r == spec_bytes_len(id),
{
    match id {
        FieldId::Bls377Fq => 48,
        _ => 32,
    }
}

proof fn lemma_pow2_consts()
    ensures
        pow2(248) == 0x100000000000000000000000000000000000000000000000000000000000000nat,
        pow2(256) == 0x10000000000000000000000000000000000000000000000000000000000000000nat,
        pow2(376) == 0x10000000000000000000000000000000000000000000000000000000000000000000000000000000000000000000000nat,
        pow2(384) == 0x1000000000000000000000000000000000000000000000000000000000000000000000000000000000000000000000000nat,
{
    lemma2_to64();
    lemma2_to64_rest();
    lemma_pow2_adds(64, 64);
    lemma_pow2_adds(128, 64);
    lemma_pow2_adds(192, 56);
    lemma_pow2_adds(192, 64);
    lemma_pow2_adds(256, 64);
    lemma_pow2_adds(320, 56);
    lemma_pow2_adds(320, 64);
}

/// Size facts each field satisfies: the modulus fits its encoding length, and
/// keeping only a whole number of bytes of the bit length stays strictly
/// below the modulus (no field here has a bit length divisible by eight).
pub proof fn lemma_field_facts(id: FieldId)
    ensures
        2 <= field_modulus(id),
        field_modulus(id) < pow2(8 * spec_bytes_len(id)),
        pow2(8 * (spec_size_in_bits(id) / 8)) <= field_modulus(id),
        31 <= spec_size_in_bits(id) / 8,
        spec_size_in_bits(id) / 8 < spec_bytes_len(id),
        spec_bytes_len(id) <= 48,
{
    lemma_pow2_consts();
}

/// Relies on `ark_ff::PrimeField::from_le_bytes_mod_order` and
/// `ark_ff::BigInteger::to_bytes_le` for `ark_ed_on_bn254::Fr`: the bytes are
/// read as a little-endian integer, reduced modulo the field order, and the
/// canonical 32-byte little-endian encoding of the result is returned.
#[verifier::external_body]
fn reduce_le_ed_on_bn254_fr(b: &[u8]) -> (r: Vec<u8>)
    ensures
        r@.len() == 32,
        le_val(r@) == le_val(b@) % field_modulus(FieldId::EdOnBn254Fr),
{
    ark_ed_on_bn254::Fr::from_le_bytes_mod_order(b).into_bigint().to_bytes_le()
}

/// Relies on `ark_ff::PrimeField::from_le_bytes_mod_order` and
/// `ark_ff::BigInteger::to_bytes_le` for `ark_bn254::Fr`, as above.
#[verifier::external_body]
fn reduce_le_bn254_fr(b: &[u8]) -> (r: Vec<u8>)
    ensures
        r@.len() == 32,
        le_val(r@) == le_val(b@) % field_modulus(FieldId::Bn254Fr),
{
    ark_bn254::Fr::from_le_bytes_mod_order(b).into_bigint().to_bytes_le()
}

/// Relies on `ark_ff::PrimeField::from_le_bytes_mod_order` and
/// `ark_ff::BigInteger::to_bytes_le` for `ark_ed_on_bls12_377::Fr`, as above.
#[verifier::external_body]
fn reduce_le_ed_on_bls377_fr(b: &[u8]) -> (r: Vec<u8>)
    ensures
        r@.len() == 32,
        le_val(r@) == le_val(b@) % field_modulus(FieldId::EdOnBls377Fr),
{
    ark_ed_on_bls12_377::Fr::from_le_bytes_mod_order(b).into_bigint().to_bytes_le()
}

/// Relies on `ark_ff::PrimeField::from_le_bytes_mod_order` and
/// `ark_ff::BigInteger::to_bytes_le` for `ark_bls12_377::Fr`, as above.
#[verifier::external_body]
fn reduce_le_bls377_fr(b: &[u8]) -> (r: Vec<u8>)
    ensures
        r@.len() == 32,
        le_val(r@) == le_val(b@) % field_modulus(FieldId::Bls377Fr),
{
    ark_bls12_377::Fr::from_le_bytes_mod_order(b).into_bigint().to_bytes_le()
}

/// Relies on `ark_ff::PrimeField::from_le_bytes_mod_order` and
/// `ark_ff::BigInteger::to_bytes_le` for `ark_bls12_377::Fq` (48 bytes), as above.
#[verifier::external_body]
fn reduce_le_bls377_fq(b: &[u8]) -> (r: Vec<u8>)
    ensures
        r@.len() == 48,
        le_val(r@) == le_val(b@) % field_modulus(FieldId::Bls377Fq),
{
    ark_bls12_377::Fq::from_le_bytes_mod_order(b).into_bigint().to_bytes_le()
}

/// Relies on `ark_ff::PrimeField::from_le_bytes_mod_order` and
/// `ark_ff::BigInteger::to_bytes_le` for `ark_ed_on_bls12_381::Fr`, as above.
#[verifier::external_body]
fn reduce_le_ed_on_bls381_fr(b: &[u8]) -> (r: Vec<u8>)
    ensures
        r@.len() == 32,
        le_val(r@) == le_val(b@) % field_modulus(FieldId::EdOnBls381Fr),
{
    ark_ed_on_bls12_381::Fr::from_le_bytes_mod_order(b).into_bigint().to_bytes_le()
}

/// Relies on `ark_ff::PrimeField::from_le_bytes_mod_order` and
/// `ark_ff::BigInteger::to_bytes_le` for `ark_bls12_381::Fr`, as above.
#[verifier::external_body]
fn reduce_le_bls381_fr(b: &[u8]) -> (r: Vec<u8>)
    ensures
        r@.len() == 32,
        le_val(r@) == le_val(b@) % field_modulus(FieldId::Bls381Fr),
{
    ark_bls12_381::Fr::from_le_bytes_mod_order(b).into_bigint().to_bytes_le()
}

/// Decodes little-endian bytes into the given field, reducing modulo its order.
fn reduce_le_bytes(id: FieldId, b: &[u8]) -> (r: Vec<u8>)
    ensures
        r@.len() == spec_bytes_len(id),
        le_val(r@) == le_val(b@) % field_modulus(id),
{
    match id {
        FieldId::EdOnBn254Fr => reduce_le_ed_on_bn254_fr(b),
        FieldId::Bn254Fr => reduce_le_bn254_fr(b),
        FieldId::EdOnBls377Fr => reduce_le_ed_on_bls377_fr(b),
        FieldId::Bls377Fr => reduce_le_bls377_fr(b),
        FieldId::Bls377Fq => reduce_le_bls377_fq(b),
        FieldId::EdOnBls381Fr => reduce_le_ed_on_bls381_fr(b),
        FieldId::Bls381Fr => reduce_le_bls381_fr(b),
    }
}

/// A field element: an integer modulo the prime of `id`, held as its
/// canonical fixed-length little-endian encoding.
pub struct FieldElem {
    id: FieldId,
    bytes: Vec<u8>,
}

impl FieldElem {
    /// The field the element belongs to.
    pub closed spec fn id(self) -> FieldId {
        self.id
    }

    /// The canonical little-endian encoding.
    pub closed spec fn enc(self) -> Seq<u8> {
        self.bytes@
    }

    /// The integer the element stands for.
    pub open spec fn val(self) -> nat {
        le_val(self.enc())
    }

    /// Canonical form: full-length encoding of a value below the modulus.
    pub open spec fn wf(self) -> bool {
        &&& self.enc().len() == spec_bytes_len(self.id())
        &&& self.val() < field_modulus(self.id())
    }

    /// The field the element belongs to.
    pub fn field_id(&self) -> (r: FieldId)
        ensures
            r == self.id(),
    {
        self.id
    }

    /// The canonical little-endian encoding, as an owned vector.
    pub fn le_bytes(&self) -> (r: Vec<u8>)
        ensures
            r@ == self.enc(),
    {
        copy_range(self.bytes.as_slice(), 0, self.bytes.len())
    }

    /// An owned copy of the element.
    pub fn duplicate(&self) -> (r: FieldElem)
        ensures
            r.id() == self.id(),
            r.enc() == self.enc(),
    {
        FieldElem { id: self.id, bytes: self.le_bytes() }
    }

    /// Decodes little-endian bytes of any length into the field, reducing the
    /// integer they denote modulo the field order.
    pub fn from_le_bytes_mod_order(id: FieldId, b: &[u8]) -> (r: FieldElem)
        ensures
            r.wf(),
            r.id() == id,
            r.val() == le_val(b@) % field_modulus(id),
    {
        let bytes = reduce_le_bytes(id, b);
        proof {
            lemma_field_facts(id);
        }
        FieldElem { id, bytes }
    }

    /// The zero element.
    pub fn zero(id: FieldId) -> (r: FieldElem)
        ensures
            r.wf(),
            r.id() == id,
            r.val() == 0,
    {
        proof {
            lemma_field_facts(id);
        }
        FieldElem { id, bytes: zero_bytes(bytes_len(id)) }
    }
}

/// In one field, a value has exactly one canonical form.
pub proof fn lemma_canonical_injective(a: FieldElem, b: FieldElem)
    requires
        a.wf(),
        b.wf(),
        a.id() == b.id(),
        a.val() == b.val(),
    ensures
        a.enc() == b.enc(),
{
    lemma_le_val_injective(a.enc(), b.enc());
}

} // verus!
