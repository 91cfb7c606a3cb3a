use ark_bls12_381::{Fq, Fq2, Fr, G1Affine as ArkG1, G1Projective, G2Affine as ArkG2, G2Projective};
use ark_ec::{AffineRepr, CurveGroup, Group};
use ark_ff::{BigInt, Field, One, PrimeField, Zero};
use ark_serialize::{CanonicalSerialize, Compress as ArkCompress};
use ark_std::{rand::Rng, test_rng, UniformRand};
use bls_curves::encoding::{Compress, SerializationError, Validate};
use bls_curves::field::{Fp, Fp2};
use bls_curves::g1::{endomorphism, Config as G1Config, G1Affine};
use bls_curves::g2::{p_power_endomorphism, Config as G2Config, G2Affine};

fn fp(f: Fq) -> Fp {
    Fp::from_limbs(f.into_bigint().0).unwrap()
}

fn fp2(f: Fq2) -> Fp2 {
    Fp2 { c0: fp(f.c0), c1: fp(f.c1) }
}

fn g1(p: &ArkG1) -> G1Affine {
    G1Affine { x: fp(p.x), y: fp(p.y), infinity: p.infinity }
}

fn g2(p: &ArkG2) -> G2Affine {
    G2Affine { x: fp2(p.x), y: fp2(p.y), infinity: p.infinity }
}

fn to_fq(f: &Fp) -> Fq {
    Fq::from_bigint(BigInt(f.limbs)).unwrap()
}

fn to_ark_g1(p: &G1Affine) -> ArkG1 {
    ArkG1 { x: to_fq(&p.x), y: to_fq(&p.y), infinity: p.infinity }
}

fn to_ark_g2(p: &G2Affine) -> ArkG2 {
    ArkG2 {
        x: Fq2::new(to_fq(&p.x.c0), to_fq(&p.x.c1)),
        y: Fq2::new(to_fq(&p.y.c0), to_fq(&p.y.c1)),
        infinity: p.infinity,
    }
}

fn same_g1(a: &G1Affine, b: &G1Affine) -> bool {
    a.equals(b)
}

fn same_g2(a: &G2Affine, b: &G2Affine) -> bool {
    a.equals(b)
}

fn ark_bytes<T: CanonicalSerialize>(p: &T, compress: ArkCompress) -> Vec<u8> {
    let mut v = Vec::new();
    p.serialize_with_mode(&mut v, compress).unwrap();
    v
}

fn g1_off_subgroup() -> ArkG1 {
    let mut rng = test_rng();
    loop {
        let x = Fq::rand(&mut rng);
        let greatest = rng.gen();
        if let Some(p) = ArkG1::get_point_from_x_unchecked(x, greatest) {
            if !p.mul_bigint(Fr::characteristic()).is_zero() {
                return p;
            }
        }
    }
}

fn g2_off_subgroup() -> ArkG2 {
    let mut rng = test_rng();
    loop {
        let x = Fq2::rand(&mut rng);
        let greatest = rng.gen();
        if let Some(p) = ArkG2::get_point_from_x_unchecked(x, greatest) {
            if !p.mul_bigint(Fr::characteristic()).is_zero() {
                return p;
            }
        }
    }
}

#[test]
fn test_g1_endomorphism_beta() {
    let one = fp(Fq::one());
    let p = G1Affine { x: one, y: fp(Fq::zero()), infinity: false };
    let beta = endomorphism(&p).x;
    assert!(!beta.equals(&one));
    let cube = endomorphism(&endomorphism(&endomorphism(&p))).x;
    assert!(cube.equals(&one));
}

#[test]
fn test_g1_subgroup_membership_via_endomorphism() {
    let mut rng = test_rng();
    let generator = G1Projective::rand(&mut rng).into_affine();
    assert!(G1Config::is_in_correct_subgroup_assuming_on_curve(&g1(&generator)));
}

#[test]
fn test_g1_subgroup_non_membership_via_endomorphism() {
    let p = g1_off_subgroup();
    assert!(!G1Config::is_in_correct_subgroup_assuming_on_curve(&g1(&p)));
}

#[test]
fn test_g2_subgroup_membership_via_endomorphism() {
    let mut rng = test_rng();
    let generator = G2Projective::rand(&mut rng).into_affine();
    assert!(G2Config::is_in_correct_subgroup_assuming_on_curve(&g2(&generator)));
}

#[test]
fn test_g2_subgroup_non_membership_via_endomorphism() {
    let p = g2_off_subgroup();
    assert!(!G2Config::is_in_correct_subgroup_assuming_on_curve(&g2(&p)));
}

#[test]
fn g1_compressed_valid_test_vectors() {
    let mut e = G1Projective::zero();
    for _ in 0..1000 {
        let e_affine = e.into_affine();
        let ours = g1(&e_affine);
        let serialized = G1Config::serialize_with_mode(&ours, Compress::Yes);
        assert_eq!(serialized, ark_bytes(&e_affine, ArkCompress::Yes));
        let decoded = G1Config::deserialize_with_mode(&serialized, Compress::Yes, Validate::Yes).unwrap();
        assert!(same_g1(&ours, &decoded));
        e += G1Projective::generator();
    }
}

#[test]
fn g1_uncompressed_valid_test_vectors() {
    let mut e = G1Projective::zero();
    for _ in 0..1000 {
        let e_affine = e.into_affine();
        let ours = g1(&e_affine);
        let serialized = G1Config::serialize_with_mode(&ours, Compress::No);
        assert_eq!(serialized, ark_bytes(&e_affine, ArkCompress::No));
        let decoded = G1Config::deserialize_with_mode(&serialized, Compress::No, Validate::Yes).unwrap();
        assert!(same_g1(&ours, &decoded));
        e += G1Projective::generator();
    }
}

#[test]
fn g2_compressed_valid_test_vectors() {
    let mut e = G2Projective::zero();
    for _ in 0..1000 {
        let e_affine = e.into_affine();
        let ours = g2(&e_affine);
        let serialized = G2Config::serialize_with_mode(&ours, Compress::Yes);
        assert_eq!(serialized, ark_bytes(&e_affine, ArkCompress::Yes));
        let decoded = G2Config::deserialize_with_mode(&serialized, Compress::Yes, Validate::Yes).unwrap();
        assert!(same_g2(&ours, &decoded));
        e += G2Projective::generator();
    }
}

#[test]
fn g2_uncompressed_valid_test_vectors() {
    let mut e = G2Projective::zero();
    for _ in 0..1000 {
        let e_affine = e.into_affine();
        let ours = g2(&e_affine);
        let serialized = G2Config::serialize_with_mode(&ours, Compress::No);
        assert_eq!(serialized, ark_bytes(&e_affine, ArkCompress::No));
        let decoded = G2Config::deserialize_with_mode(&serialized, Compress::No, Validate::Yes).unwrap();
        assert!(same_g2(&ours, &decoded));
        e += G2Projective::generator();
    }
}

#[test]
fn g1_generator_compressed_scenario() {
    let gen = ArkG1::generator();
    let ours = g1(&gen);
    let bytes = G1Config::serialize_with_mode(&ours, Compress::Yes);
    assert_eq!(bytes.len(), 48);
    assert_eq!(bytes[0] & 0xc0, 0x80);
    let sign = gen.y > -gen.y;
    assert_eq!(bytes[0] & 0x20 != 0, sign);
    let decoded = G1Config::deserialize_with_mode(&bytes, Compress::Yes, Validate::Yes).unwrap();
    assert!(same_g1(&ours, &decoded));
}

#[test]
fn identity_encodes_as_flagged_zeros() {
    let id1 = G1Affine::identity();
    let c = G1Config::serialize_with_mode(&id1, Compress::Yes);
    let mut expected = vec![0u8; 48];
    expected[0] = 0xc0;
    assert_eq!(c, expected);
    let u = G1Config::serialize_with_mode(&id1, Compress::No);
    let mut expected = vec![0u8; 96];
    expected[0] = 0x40;
    assert_eq!(u, expected);
    let id2 = G2Affine::identity();
    let c = G2Config::serialize_with_mode(&id2, Compress::Yes);
    let mut expected = vec![0u8; 96];
    expected[0] = 0xc0;
    assert_eq!(c, expected);
    let u = G2Config::serialize_with_mode(&id2, Compress::No);
    let mut expected = vec![0u8; 192];
    expected[0] = 0x40;
    assert_eq!(u, expected);
    let back = G2Config::deserialize_with_mode(&u, Compress::No, Validate::Yes).unwrap();
    assert!(back.infinity);
}

#[test]
fn infinity_flag_ignores_other_bits() {
    let mut bytes = vec![0x5au8; 48];
    bytes[0] = 0xc5;
    let p = G1Config::deserialize_with_mode(&bytes, Compress::Yes, Validate::No).unwrap();
    assert!(same_g1(&p, &G1Affine::identity()));
}

#[test]
fn compression_flag_must_match_mode() {
    let ours = g1(&ArkG1::generator());
    let compressed = G1Config::serialize_with_mode(&ours, Compress::Yes);
    let mut padded = compressed.clone();
    padded.extend_from_slice(&[0u8; 48]);
    assert_eq!(
        G1Config::deserialize_with_mode(&padded, Compress::No, Validate::No).unwrap_err(),
        SerializationError::InvalidData
    );
    let uncompressed = G1Config::serialize_with_mode(&ours, Compress::No);
    assert_eq!(
        G1Config::deserialize_with_mode(&uncompressed, Compress::Yes, Validate::No).unwrap_err(),
        SerializationError::InvalidData
    );
}

#[test]
fn short_input_is_invalid() {
    let ours = g2(&ArkG2::generator());
    let bytes = G2Config::serialize_with_mode(&ours, Compress::Yes);
    assert_eq!(
        G2Config::deserialize_with_mode(&bytes[..95], Compress::Yes, Validate::No).unwrap_err(),
        SerializationError::InvalidData
    );
    let first = G1Config::deserialize_with_mode(&[0x80u8; 47], Compress::Yes, Validate::No);
    assert_eq!(first.unwrap_err(), SerializationError::InvalidData);
}

#[test]
fn non_canonical_x_is_invalid() {
    let q = <Fq as PrimeField>::MODULUS.0;
    let mut bytes = Vec::new();
    for i in (0..6).rev() {
        bytes.extend_from_slice(&q[i].to_be_bytes());
    }
    bytes[0] |= 0x80;
    assert_eq!(
        G1Config::deserialize_with_mode(&bytes, Compress::Yes, Validate::No).unwrap_err(),
        SerializationError::InvalidData
    );
    let mut two = bytes.clone();
    two.extend_from_slice(&[0u8; 48]);
    assert_eq!(
        G2Config::deserialize_with_mode(&two, Compress::Yes, Validate::No).unwrap_err(),
        SerializationError::InvalidData
    );
}

#[test]
fn x_without_root_is_invalid() {
    let mut x = 0u64;
    while ArkG1::get_point_from_x_unchecked(Fq::from(x), false).is_some() {
        x += 1;
    }
    let mut bytes = vec![0u8; 48];
    bytes[40..48].copy_from_slice(&x.to_be_bytes());
    bytes[0] |= 0x80;
    assert_eq!(
        G1Config::deserialize_with_mode(&bytes, Compress::Yes, Validate::No).unwrap_err(),
        SerializationError::InvalidData
    );
}

#[test]
fn g1_off_subgroup_point_rejected_only_when_validating() {
    let p = g1(&g1_off_subgroup());
    for mode in [Compress::Yes, Compress::No] {
        let bytes = G1Config::serialize_with_mode(&p, mode);
        let unchecked = G1Config::deserialize_with_mode(&bytes, mode, Validate::No).unwrap();
        assert!(same_g1(&p, &unchecked));
        assert_eq!(
            G1Config::deserialize_with_mode(&bytes, mode, Validate::Yes).unwrap_err(),
            SerializationError::InvalidData
        );
    }
}

#[test]
fn g2_off_subgroup_point_rejected_only_when_validating() {
    let p = g2(&g2_off_subgroup());
    for mode in [Compress::Yes, Compress::No] {
        let bytes = G2Config::serialize_with_mode(&p, mode);
        let unchecked = G2Config::deserialize_with_mode(&bytes, mode, Validate::No).unwrap();
        assert!(same_g2(&p, &unchecked));
        assert_eq!(
            G2Config::deserialize_with_mode(&bytes, mode, Validate::Yes).unwrap_err(),
            SerializationError::InvalidData
        );
    }
}

#[test]
fn off_curve_uncompressed_point_rejected_only_when_validating() {
    let gen = ArkG1::generator();
    let bad = G1Affine { x: fp(gen.x), y: fp(gen.y + Fq::one()), infinity: false };
    assert!(!to_ark_g1(&bad).is_on_curve());
    let bytes = G1Config::serialize_with_mode(&bad, Compress::No);
    let unchecked = G1Config::deserialize_with_mode(&bytes, Compress::No, Validate::No).unwrap();
    assert!(same_g1(&bad, &unchecked));
    assert_eq!(
        G1Config::deserialize_with_mode(&bytes, Compress::No, Validate::Yes).unwrap_err(),
        SerializationError::InvalidData
    );
}

#[test]
fn decompression_keeps_sign_of_both_roots() {
    let gen = ArkG1::generator();
    for p in [gen, -gen] {
        let ours = g1(&p);
        let bytes = G1Config::serialize_with_mode(&ours, Compress::Yes);
        let back = G1Config::deserialize_with_mode(&bytes, Compress::Yes, Validate::No).unwrap();
        assert!(same_g1(&ours, &back));
        let y = to_fq(&back.y);
        assert_eq!(y > -y, p.y > -p.y);
    }
    let gen2 = ArkG2::generator();
    for p in [gen2, -gen2] {
        let ours = g2(&p);
        let bytes = G2Config::serialize_with_mode(&ours, Compress::Yes);
        let back = G2Config::deserialize_with_mode(&bytes, Compress::Yes, Validate::No).unwrap();
        assert!(same_g2(&ours, &back));
    }
}

#[test]
fn endomorphisms_match_scalar_multiples() {
    let gen = ArkG1::generator();
    let e = endomorphism(&endomorphism(&endomorphism(&g1(&gen))));
    assert!(same_g1(&e, &g1(&gen)));
    let gen2 = ArkG2::generator();
    let psi = p_power_endomorphism(&g2(&gen2));
    assert!(to_ark_g2(&psi).is_on_curve());
    assert!(!same_g2(&psi, &g2(&gen2)));
}

#[test]
fn clear_cofactor_lands_in_subgroup() {
    let p = g1(&g1_off_subgroup());
    let cleared = G1Config::clear_cofactor(&p);
    assert!(to_ark_g1(&cleared).is_on_curve());
    assert!(G1Config::is_in_correct_subgroup_assuming_on_curve(&cleared));
    let expected = ArkG1::clear_cofactor(&g1_off_subgroup());
    assert!(same_g1(&cleared, &g1(&expected)));
}

#[test]
fn g2_clear_cofactor_lands_in_subgroup() {
    let p = g2_off_subgroup();
    let cleared = G2Config::clear_cofactor(&g2(&p));
    assert!(to_ark_g2(&cleared).is_on_curve());
    assert!(same_g2(&cleared, &g2(&ArkG2::clear_cofactor(&p))));
    assert!(G2Config::is_in_correct_subgroup_assuming_on_curve(&cleared));
    assert!(!cleared.infinity);
}

#[test]
fn g2_off_curve_uncompressed_point_rejected_only_when_validating() {
    let gen = ArkG2::generator();
    let bad = G2Affine { x: g2(&gen).x, y: g2(&(-gen)).x, infinity: false };
    assert!(!to_ark_g2(&bad).is_on_curve());
    let bytes = G2Config::serialize_with_mode(&bad, Compress::No);
    let unchecked = G2Config::deserialize_with_mode(&bytes, Compress::No, Validate::No).unwrap();
    assert!(same_g2(&bad, &unchecked));
    assert_eq!(
        G2Config::deserialize_with_mode(&bytes, Compress::No, Validate::Yes).unwrap_err(),
        SerializationError::InvalidData
    );
}
