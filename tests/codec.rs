use ark_bls12_381::{g1::BETA, Fq, Fq2};
use ark_ec::AffineRepr;
use ark_ff::{BigInt, Field, PrimeField};
use bls_curves::encoding::{Compress, EncodingFlags};
use bls_curves::field::{deserialize_fq, serialize_fq, Fp, Fp2};
use bls_curves::g1::{endomorphism, one_minus_x, Config as G1Config, G1Affine};
use bls_curves::g2::{p_power_endomorphism, Config as G2Config, G2Affine};
use std::str::FromStr;

fn fp(v: u64) -> Fp {
    Fp::from_limbs([v, 0, 0, 0, 0, 0]).unwrap()
}

fn fq(f: Fq) -> Fp {
    Fp::from_limbs(f.into_bigint().0).unwrap()
}

fn modulus_limbs() -> [u64; 6] {
    <Fq as PrimeField>::MODULUS.0
}

fn q_minus(v: u64) -> [u64; 6] {
    let mut l = modulus_limbs();
    l[0] -= v;
    l
}

#[test]
fn get_flags_reads_top_three_bits() {
    let f = EncodingFlags::get_flags(&[0xa5u8]);
    assert!(f.is_compressed);
    assert!(!f.is_infinity);
    assert!(f.is_lexographically_largest);
    let f = EncodingFlags::get_flags(&[0x40u8, 0xff]);
    assert!(!f.is_compressed);
    assert!(f.is_infinity);
    assert!(!f.is_lexographically_largest);
}

#[test]
fn encode_flags_keeps_coordinate_bits() {
    let flags = EncodingFlags {
        is_compressed: true,
        is_infinity: false,
        is_lexographically_largest: true,
    };
    let mut buf = vec![0x1fu8, 0xab, 0xcd];
    flags.encode_flags(&mut buf);
    assert_eq!(buf, vec![0xbfu8, 0xab, 0xcd]);
    let decoded = EncodingFlags::decode_flags(&mut buf);
    assert_eq!(decoded, flags);
    assert_eq!(buf, vec![0x1fu8, 0xab, 0xcd]);
}

#[test]
fn encode_flags_drops_sign_on_infinity_and_uncompressed() {
    let mut buf = vec![0x00u8];
    EncodingFlags { is_compressed: true, is_infinity: true, is_lexographically_largest: true }
        .encode_flags(&mut buf);
    assert_eq!(buf, vec![0xc0u8]);
    let mut buf = vec![0x03u8];
    EncodingFlags { is_compressed: false, is_infinity: false, is_lexographically_largest: true }
        .encode_flags(&mut buf);
    assert_eq!(buf, vec![0x03u8]);
}

#[test]
fn flags_round_trip_every_combination() {
    for bits in 0u8..8 {
        let flags = EncodingFlags {
            is_compressed: bits & 4 != 0,
            is_infinity: bits & 2 != 0,
            is_lexographically_largest: bits & 1 != 0,
        };
        for first in [0u8, 1, 0x15, 0x1f] {
            let mut buf = vec![first, 0x77];
            flags.encode_flags(&mut buf);
            let got = EncodingFlags::decode_flags(&mut buf);
            assert_eq!(buf, vec![first, 0x77]);
            assert_eq!(got.is_compressed, flags.is_compressed);
            assert_eq!(got.is_infinity, flags.is_infinity);
            assert_eq!(
                got.is_lexographically_largest,
                flags.is_compressed && !flags.is_infinity && flags.is_lexographically_largest
            );
        }
    }
}

#[test]
fn from_limbs_accepts_exactly_values_below_modulus() {
    let q = modulus_limbs();
    assert!(Fp::from_limbs(q).is_none());
    let mut below = q;
    below[0] -= 1;
    assert_eq!(Fp::from_limbs(below).unwrap().limbs, below);
    assert!(Fp::from_limbs([u64::MAX; 6]).is_none());
}

#[test]
fn serialize_fq_is_big_endian() {
    let f = Fp::from_limbs([0x0102030405060708, 0, 0, 0, 0, 0x1112131415161718]).unwrap();
    let b = serialize_fq(&f);
    assert_eq!(b.len(), 48);
    assert_eq!(&b[0..8], &[0x11u8, 0x12, 0x13, 0x14, 0x15, 0x16, 0x17, 0x18]);
    assert_eq!(&b[8..40], &[0u8; 32]);
    assert_eq!(&b[40..48], &[1u8, 2, 3, 4, 5, 6, 7, 8]);
    let back = deserialize_fq(&b, 0).unwrap();
    assert_eq!(back.limbs, f.limbs);
}

#[test]
fn deserialize_fq_rejects_modulus() {
    let q = modulus_limbs();
    let mut bytes = Vec::new();
    for i in (0..6).rev() {
        bytes.extend_from_slice(&q[i].to_be_bytes());
    }
    assert!(deserialize_fq(&bytes, 0).is_none());
    bytes[47] -= 1;
    let below = deserialize_fq(&bytes, 0).unwrap();
    let mut expected = q;
    expected[0] -= 1;
    assert_eq!(below.limbs, expected);
}

#[test]
fn fp2_negate_negates_both_halves() {
    let mut q_minus_one = modulus_limbs();
    q_minus_one[0] -= 1;
    let a = Fp2 { c0: fp(1), c1: fp(0) };
    let n = a.negate();
    assert_eq!(n.c0.limbs, q_minus_one);
    assert_eq!(n.c1.limbs, [0u64; 6]);
    assert!(n.negate().equals(&a));
    assert!(fp(9).equals(&fp(9)));
    assert!(!fp(9).equals(&fp(8)));
}

#[test]
fn endomorphism_multiplies_x_by_beta() {
    let p = G1Affine { x: fp(2), y: fp(5), infinity: false };
    let e = endomorphism(&p);
    let expected = Fq::from(2u64) * BETA;
    assert_eq!(e.x.limbs, expected.into_bigint().0);
    assert_eq!(e.y.limbs, fp(5).limbs);
    let id = endomorphism(&G1Affine::identity());
    assert!(id.infinity);
    assert_eq!(id.x.limbs, [0u64; 6]);
}

#[test]
fn sign_flag_follows_integer_order() {
    let mut q_minus_one = modulus_limbs();
    q_minus_one[0] -= 1;
    let small = G1Affine { x: fp(0), y: fp(1), infinity: false };
    let large = G1Affine { x: fp(0), y: Fp::from_limbs(q_minus_one).unwrap(), infinity: false };
    assert_eq!(G1Config::serialize_with_mode(&small, Compress::Yes)[0], 0x80);
    assert_eq!(G1Config::serialize_with_mode(&large, Compress::Yes)[0], 0xa0);
    let zero = G1Affine { x: fp(0), y: fp(0), infinity: false };
    assert_eq!(G1Config::serialize_with_mode(&zero, Compress::Yes)[0], 0x80);
}

#[test]
fn g2_sign_flag_compares_c1_first() {
    let y_c1_small = Fp2 { c0: Fp::from_limbs(q_minus(1)).unwrap(), c1: fp(1) };
    let p = G2Affine { x: Fp2 { c0: fp(0), c1: fp(0) }, y: y_c1_small, infinity: false };
    assert_eq!(G2Config::serialize_with_mode(&p, Compress::Yes)[0], 0x80);
    let y_c1_zero = Fp2 { c0: Fp::from_limbs(q_minus(1)).unwrap(), c1: fp(0) };
    let p = G2Affine { x: Fp2 { c0: fp(0), c1: fp(0) }, y: y_c1_zero, infinity: false };
    assert_eq!(G2Config::serialize_with_mode(&p, Compress::Yes)[0], 0xa0);
    let y_c1_large = Fp2 { c0: fp(1), c1: Fp::from_limbs(q_minus(1)).unwrap() };
    let p = G2Affine { x: Fp2 { c0: fp(0), c1: fp(0) }, y: y_c1_large, infinity: false };
    assert_eq!(G2Config::serialize_with_mode(&p, Compress::Yes)[0], 0xa0);
}

#[test]
fn psi_matches_frobenius_and_twist_coefficients() {
    let gen = ark_bls12_381::G2Affine::generator();
    let p = G2Affine {
        x: Fp2 { c0: fq(gen.x.c0), c1: fq(gen.x.c1) },
        y: Fp2 { c0: fq(gen.y.c0), c1: fq(gen.y.c1) },
        infinity: false,
    };
    let psi = p_power_endomorphism(&p);
    let mut fx = gen.x;
    fx.frobenius_map_in_place(1);
    let mut fy = gen.y;
    fy.frobenius_map_in_place(1);
    let cx = Fq::from_str("4002409555221667392624310435006688643935503118305586438271171395842971157480381377015405980053539358417135540939437").unwrap();
    let cy = Fq2::new(
        Fq::from_str("2973677408986561043442465346520108879172042883009249989176415018091420807192182638567116318576472649347015917690530").unwrap(),
        Fq::from_str("1028732146235106349975324479215795277384839936929757896155643118032610843298655225875571310552543014690878354869257").unwrap(),
    );
    let ex = Fq2::new(-cx * fx.c1, cx * fx.c0);
    let ey = fy * cy;
    assert_eq!(psi.x.c0.limbs, ex.c0.into_bigint().0);
    assert_eq!(psi.x.c1.limbs, ex.c1.into_bigint().0);
    assert_eq!(psi.y.c0.limbs, ey.c0.into_bigint().0);
    assert_eq!(psi.y.c1.limbs, ey.c1.into_bigint().0);
    assert!(!psi.infinity);
}

#[test]
fn serialized_sizes() {
    assert_eq!(G1Config::serialized_size(Compress::Yes), 48);
    assert_eq!(G1Config::serialized_size(Compress::No), 96);
    assert_eq!(G2Config::serialized_size(Compress::Yes), 96);
    assert_eq!(G2Config::serialized_size(Compress::No), 192);
}

#[test]
fn fp_limbs_round_trip_through_arkworks() {
    let v = Fq::from(123456789u64);
    let f = Fp::from_limbs(v.into_bigint().0).unwrap();
    assert_eq!(Fq::from_bigint(BigInt(f.limbs)).unwrap(), v);
}

#[test]
fn one_minus_x_is_one_plus_abs_x() {
    assert_eq!(one_minus_x(), 0xd201000000010001);
}
