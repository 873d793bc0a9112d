use rescue_transcript::field::{FieldElem, FieldId};
use rescue_transcript::conversion::{
    bytes_to_field_elements, field_switching, fq_to_fr, fq_to_fr_with_mask, fr_to_fq,
    hash_to_field, try_field_switching,
};
use ark_ff::{BigInteger, PrimeField};
use ark_std::UniformRand;
use sha2::{Digest, Sha512};

fn elem_from_ark_bytes(id: FieldId, bytes: &[u8]) -> FieldElem {
    FieldElem::from_le_bytes_mod_order(id, bytes)
}

#[test]
fn test_bn254_scalar_conversion() {
    let mut rng = ark_std::test_rng();
    for _ in 0..6 {
        let jj = ark_ed_on_bn254::Fr::rand(&mut rng);
        let bytes = jj.into_bigint().to_bytes_le();
        let x = elem_from_ark_bytes(FieldId::EdOnBn254Fr, &bytes);
        let jj_bls = fr_to_fq(&x, FieldId::Bn254Fr);
        assert_eq!(jj_bls.le_bytes(), bytes);
    }
}

#[test]
fn test_jubjub_bls_scalar_conversion_377() {
    let mut rng = ark_std::test_rng();
    for _ in 0..6 {
        let jj = ark_ed_on_bls12_377::Fr::rand(&mut rng);
        let bytes = jj.into_bigint().to_bytes_le();
        let x = elem_from_ark_bytes(FieldId::EdOnBls377Fr, &bytes);
        let jj_bls = fr_to_fq(&x, FieldId::Bls377Fr);
        assert_eq!(jj_bls.le_bytes(), bytes);
    }
}

#[test]
fn test_jubjub_bls_scalar_conversion_381() {
    let mut rng = ark_std::test_rng();
    for _ in 0..6 {
        let jj = ark_ed_on_bls12_381::Fr::rand(&mut rng);
        let bytes = jj.into_bigint().to_bytes_le();
        let x = elem_from_ark_bytes(FieldId::EdOnBls381Fr, &bytes);
        let jj_bls = fr_to_fq(&x, FieldId::Bls381Fr);
        assert_eq!(jj_bls.le_bytes(), bytes);
    }
}

#[test]
fn test_mod_order_reduction_matches_arkworks() {
    // 64 bytes of 0xff: above every modulus here, so reduction must kick in
    let big = [0xffu8; 64];
    let r = elem_from_ark_bytes(FieldId::Bls377Fr, &big);
    let expected = ark_bls12_377::Fr::from_le_bytes_mod_order(&big).into_bigint().to_bytes_le();
    assert_eq!(r.le_bytes(), expected);
    let r = elem_from_ark_bytes(FieldId::Bls377Fq, &big);
    let expected = ark_bls12_377::Fq::from_le_bytes_mod_order(&big).into_bigint().to_bytes_le();
    assert_eq!(r.le_bytes(), expected);
    let r = elem_from_ark_bytes(FieldId::Bn254Fr, &big);
    let expected = ark_bn254::Fr::from_le_bytes_mod_order(&big).into_bigint().to_bytes_le();
    assert_eq!(r.le_bytes(), expected);
    let r = elem_from_ark_bytes(FieldId::Bls381Fr, &big);
    let expected = ark_bls12_381::Fr::from_le_bytes_mod_order(&big).into_bigint().to_bytes_le();
    assert_eq!(r.le_bytes(), expected);
    let r = elem_from_ark_bytes(FieldId::EdOnBn254Fr, &big);
    let expected = ark_ed_on_bn254::Fr::from_le_bytes_mod_order(&big).into_bigint().to_bytes_le();
    assert_eq!(r.le_bytes(), expected);
    let r = elem_from_ark_bytes(FieldId::EdOnBls377Fr, &big);
    let expected =
        ark_ed_on_bls12_377::Fr::from_le_bytes_mod_order(&big).into_bigint().to_bytes_le();
    assert_eq!(r.le_bytes(), expected);
    let r = elem_from_ark_bytes(FieldId::EdOnBls381Fr, &big);
    let expected =
        ark_ed_on_bls12_381::Fr::from_le_bytes_mod_order(&big).into_bigint().to_bytes_le();
    assert_eq!(r.le_bytes(), expected);
}

#[test]
fn test_modulus_reduces_to_zero() {
    let modulus_bytes = ark_bls12_377::Fr::MODULUS.to_bytes_le();
    let r = elem_from_ark_bytes(FieldId::Bls377Fr, &modulus_bytes);
    assert_eq!(r.le_bytes(), vec![0u8; 32]);
}

#[test]
fn test_fq_to_fr_reduces() {
    // the BLS12-377 scalar modulus, read as a base-field element, reduces to 0
    let modulus_bytes = ark_bls12_377::Fr::MODULUS.to_bytes_le();
    let x = elem_from_ark_bytes(FieldId::Bls377Fq, &modulus_bytes);
    let r = fq_to_fr(&x, FieldId::Bls377Fr);
    assert_eq!(r.le_bytes(), vec![0u8; 32]);
}

#[test]
fn test_bytes_to_field_elements_length() {
    // chunk size for the 253-bit field is 31 bytes
    let b = [7u8; 3];
    let elems = bytes_to_field_elements(&b, FieldId::Bls377Fr);
    assert_eq!(elems.len(), 1);
    let mut expected = vec![7u8, 7, 7];
    expected.resize(32, 0u8);
    assert_eq!(elems[0].le_bytes(), expected);

    let b = [1u8; 31];
    assert_eq!(bytes_to_field_elements(&b, FieldId::Bls377Fr).len(), 1);
    let b = [1u8; 32];
    let elems = bytes_to_field_elements(&b, FieldId::Bls377Fr);
    assert_eq!(elems.len(), 2);
    let mut second = vec![1u8];
    second.resize(32, 0u8);
    assert_eq!(elems[1].le_bytes(), second);
}

#[test]
fn test_bytes_to_field_elements_zero_padding_invariant() {
    let b = b"message 0";
    let base = bytes_to_field_elements(b, FieldId::Bls377Fr);
    // pad with zero bytes up to the 31-byte chunk boundary
    let mut padded = b.to_vec();
    padded.resize(31, 0u8);
    let same = bytes_to_field_elements(&padded, FieldId::Bls377Fr);
    assert_eq!(base.len(), same.len());
    for (a, b) in base.iter().zip(same.iter()) {
        assert_eq!(a.le_bytes(), b.le_bytes());
    }
}

#[test]
fn test_fq_to_fr_with_mask_keeps_low_bytes() {
    // a 377-bit-field element whose low 32 bytes are 0xff
    let bytes = [0xffu8; 32];
    let x = elem_from_ark_bytes(FieldId::Bls377Fq, &bytes);
    let masked = fq_to_fr_with_mask(&x, FieldId::Bls377Fr);
    // 253 bits / 8 = 31 bytes survive
    let mut expected = vec![0xffu8; 31];
    expected.resize(32, 0u8);
    assert_eq!(masked.le_bytes(), expected);
    // masking the masked value again changes nothing
    let back = fr_to_fq(&masked, FieldId::Bls377Fq);
    let twice = fq_to_fr_with_mask(&back, FieldId::Bls377Fr);
    assert_eq!(twice.le_bytes(), masked.le_bytes());
}

#[test]
fn test_field_switching_round_trip() {
    let mut rng = ark_std::test_rng();
    for _ in 0..6 {
        let v = ark_bls12_377::Fr::rand(&mut rng);
        let x = elem_from_ark_bytes(FieldId::Bls377Fr, &v.into_bigint().to_bytes_le());
        let y = field_switching(&x, FieldId::Bls377Fq);
        let z = field_switching(&y, FieldId::Bls377Fr);
        assert_eq!(z.le_bytes(), x.le_bytes());
    }
}

#[test]
fn test_field_switching_rejects_unrepresentable() {
    // a base-field value equal to the scalar modulus does not fit the scalar field
    let modulus_bytes = ark_bls12_377::Fr::MODULUS.to_bytes_le();
    let x = elem_from_ark_bytes(FieldId::Bls377Fq, &modulus_bytes);
    assert!(try_field_switching(&x, FieldId::Bls377Fr).is_none());
    // same-width fields: a BN254 scalar at the embedded curve's modulus
    let emb_modulus = ark_ed_on_bn254::Fr::MODULUS.to_bytes_le();
    let x = elem_from_ark_bytes(FieldId::Bn254Fr, &emb_modulus);
    assert!(try_field_switching(&x, FieldId::EdOnBn254Fr).is_none());
    // a representable value switches fine
    let small = elem_from_ark_bytes(FieldId::Bls377Fq, &[42u8]);
    let y = try_field_switching(&small, FieldId::Bls377Fr).unwrap();
    assert_eq!(y.le_bytes()[0], 42u8);
}

#[test]
fn test_hash_to_field_matches_digest() {
    let msg = b"hello world";
    let h = hash_to_field(msg, FieldId::Bls377Fr);
    // recompute: first ceil(253/8) + 16 = 48 digest bytes, decoded mod order
    let mut hasher = Sha512::default();
    hasher.update(msg);
    let digest = hasher.finalize();
    let expected = elem_from_ark_bytes(FieldId::Bls377Fr, &digest[0..48]);
    assert_eq!(h.le_bytes(), expected.le_bytes());
    assert_ne!(h.le_bytes(), vec![0u8; 32]);
}
