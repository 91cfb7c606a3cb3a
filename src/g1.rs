//! Points of G1, the BLS12-381 curve `y^2 = x^3 + 4` over `Fq`: the wire format, decompression
//! and the subgroup check by the endomorphism `(x, y) -> (beta * x, y)`.
use crate::bytes::{append_bytes, be_bytes, be_nat, copy_prefix, lemma_be_bytes_zero};
use crate::encoding::{
    lemma_flags_byte_round_trip, unflagged, Compress, EncodingFlags, SerializationError,
    Validate, G1_SERIALIZED_SIZE,
};
use crate::field::{
    deserialize_fq, fq_add, fq_lex_largest, fq_modulus, fq_mul, fq_neg, lemma_fq_bytes,
    lemma_fq_lex_neg, serialize_fq, Fp,
};
use ark_bls12_381::{g1::BETA, Fq, G1Affine as ArkG1Affine};
use ark_ec::{AffineRepr, CurveGroup};
use ark_ff::{BigInt, PrimeField};
use vstd::prelude::*;

verus! {

/// The absolute value of the BLS parameter `x`.
pub const BLS_X: u64 = 0xd201000000010000;

/// The BLS parameter `x` is negative.
pub const BLS_X_IS_NEGATIVE: bool = true;

/// A G1 point as `(x, y, infinity)`.
pub type G1Value = (nat, nat, bool);

/// The non-trivial cube root of unity `beta` =
/// 793479390729215512621379701633421447060886740281060493010456487427281649075476305620758731620350,
/// written in base `2^64`.
pub open spec fn g1_beta_value() -> nat {
    ((((0x5f19672fdf76ce51) * 0x1_0000_0000_0000_0000 + 0xba69c6076a0f77ea) * 0x1_0000_0000_0000_0000
        + 0xddb3a93be6f89688) * 0x1_0000_0000_0000_0000 + 0xde17d813620a0002)
        * 0x1_0000_0000_0000_0000 + 0x2e01fffffffefffe
}

/// `x^3 + 4`.
pub open spec fn g1_rhs(x: nat) -> nat {
    fq_add(fq_mul(fq_mul(x, x), x), 4)
}

pub open spec fn g1_on_curve(p: G1Value) -> bool {
    p.2 || fq_mul(p.1, p.1) == g1_rhs(p.0)
}

pub open spec fn g1_identity() -> G1Value {
    (0, 0, true)
}

pub open spec fn g1_neg(p: G1Value) -> G1Value {
    (p.0, fq_neg(p.1), p.2)
}

pub open spec fn g1_endomorphism(p: G1Value) -> G1Value {
    (fq_mul(p.0, g1_beta_value()), p.1, p.2)
}

/// `[k] p`, in affine form, as ark-ec's scalar multiplication computes it.
pub uninterp spec fn g1_mul_bigint_of(p: G1Value, k: nat) -> G1Value;

/// The subgroup test: `p` passes when `[x] p` differs from `p` (unless `p` is the
/// identity) and `-[x^2] p` equals the endomorphism of `p`.
pub open spec fn g1_subgroup_test(p: G1Value) -> bool {
    let x_times_p = g1_mul_bigint_of(p, BLS_X as nat);
    !(x_times_p == p && !p.2) && g1_neg(g1_mul_bigint_of(x_times_p, BLS_X as nat))
        == g1_endomorphism(p)
}

/// What validation asks of a decoded point.
pub open spec fn g1_valid(p: G1Value) -> bool {
    g1_on_curve(p) && g1_subgroup_test(p)
}

/// `y` is a square root of `x^3 + 4` whose sign matches `greatest`; zero matches either.
pub open spec fn g1_y_candidate(x: nat, greatest: bool, y: nat) -> bool {
    &&& y < fq_modulus()
    &&& fq_mul(y, y) == g1_rhs(x)
    &&& fq_lex_largest(y) == greatest || y == 0
}

pub open spec fn g1_size(c: Compress) -> nat {
    if c == Compress::Yes {
        48
    } else {
        96
    }
}

/// The encoding of `p`: big-endian `x` (and `y` when uncompressed) with the flags on the
/// first byte.
pub open spec fn g1_encoding(p: G1Value, c: Compress) -> Seq<u8> {
    let flags = EncodingFlags {
        is_compressed: c == Compress::Yes,
        is_infinity: p.2,
        is_lexographically_largest: fq_lex_largest(p.1),
    };
    let raw = if c == Compress::Yes {
        be_bytes(p.0, 48)
    } else {
        be_bytes(p.0, 48) + be_bytes(p.1, 48)
    };
    raw.update(0, raw[0] | flags.bits())
}

/// `bytes` begin with an encoding of `p`. The infinity flag stands for the identity
/// whatever the other bits hold; the sign flag is read only on a compressed finite point.
pub open spec fn g1_decodes_to(bytes: Seq<u8>, c: Compress, p: G1Value) -> bool {
    let flags = EncodingFlags::of_byte(bytes[0]);
    let buf = bytes.subrange(0, g1_size(c) as int).update(0, unflagged(bytes[0]));
    let x = be_nat(buf.subrange(0, 48));
    &&& bytes.len() >= g1_size(c)
    &&& flags.is_compressed == (c == Compress::Yes)
    &&& if flags.is_infinity {
        p == g1_identity()
    } else {
        &&& x < fq_modulus()
        &&& !p.2
        &&& p.0 == x
        &&& if c == Compress::Yes {
            g1_y_candidate(x, flags.is_lexographically_largest, p.1)
        } else {
            p.1 == be_nat(buf.subrange(48, 96)) && p.1 < fq_modulus()
        }
    }
}

/// What decoding `bytes` gives: the one point that they encode, when there is one and it
/// passes validation if that is asked for; `InvalidData` otherwise.
pub open spec fn g1_deserialize_result(
    bytes: Seq<u8>,
    c: Compress,
    v: Validate,
    r: Result<G1Value, SerializationError>,
) -> bool {
    match r {
        Ok(p) => {
            &&& g1_decodes_to(bytes, c, p)
            &&& forall|o: G1Value| #[trigger] g1_decodes_to(bytes, c, o) ==> o == p
            &&& v == Validate::Yes ==> g1_valid(p)
        },
        Err(e) => {
            &&& e == SerializationError::InvalidData
            &&& forall|o: G1Value| #[trigger]
                g1_decodes_to(bytes, c, o) ==> v == Validate::Yes && !g1_valid(o)
        },
    }
}

/// An affine point of G1. The identity has both coordinates zero.
#[derive(Clone, Copy, Debug)]
pub struct G1Affine {
    pub x: Fp,
    pub y: Fp,
    pub infinity: bool,
}

impl View for G1Affine {
    type V = G1Value;

    open spec fn view(&self) -> G1Value {
        (self.x@, self.y@, self.infinity)
    }
}

pub open spec fn g1_result_view(r: Result<G1Affine, SerializationError>) -> Result<
    G1Value,
    SerializationError,
> {
    match r {
        Ok(p) => Ok(p@),
        Err(e) => Err(e),
    }
}

/// Relies on ark-bls12-381's constant `g1::BETA`.
#[verifier::external_body]
fn g1_beta() -> (r: Fp)
    ensures
        r.wf(),
        r@ == g1_beta_value(),
{
    Fp { limbs: BETA.into_bigint().0 }
}

/// Relies on ark-ec's `Affine::get_point_from_x_unchecked` on G1: it takes a square root
/// `s` of `x^3 + 4` (ark-ff's `sqrt`, `None` when there is none) and returns the larger of
/// `s` and `-s` when `greatest` is set, the smaller otherwise. As `q` is prime, `s` and
/// `-s` are the only square roots.
#[verifier::external_body]
fn g1_y_from_x(x: &Fp, greatest: bool) -> (r: Option<Fp>)
    requires
        x.wf(),
    ensures
        match r {
            Some(y) => {
                &&& y.wf()
                &&& g1_y_candidate(x@, greatest, y@)
                &&& forall|z: nat|
                    z < fq_modulus() && #[trigger] fq_mul(z, z) == g1_rhs(x@) ==> z == y@ || z
                        == fq_neg(y@)
            },
            None => forall|z: nat| z < fq_modulus() ==> #[trigger] fq_mul(z, z) != g1_rhs(x@),
        },
{
    match ArkG1Affine::get_point_from_x_unchecked(Fq::new(BigInt::new(x.limbs)), greatest) {
        Some(p) => Some(Fp { limbs: p.y.into_bigint().0 }),
        None => None,
    }
}

/// Relies on ark-ec's `AffineRepr::mul_bigint` on G1 with the one-limb scalar `k`, brought
/// back to affine form by `into_affine`, which gives the identity as `(0, 0)`.
#[verifier::external_body]
fn g1_mul_bigint(p: &G1Affine, k: u64) -> (r: G1Affine)
    requires
        p.wf(),
    ensures
        r.wf(),
        r@ == g1_mul_bigint_of(p@, k as nat),
{
    let a = ArkG1Affine {
        x: Fq::new(BigInt::new(p.x.limbs)),
        y: Fq::new(BigInt::new(p.y.limbs)),
        infinity: p.infinity,
    };
    let r = a.mul_bigint([k]).into_affine();
    G1Affine { x: Fp { limbs: r.x.into_bigint().0 }, y: Fp { limbs: r.y.into_bigint().0 }, infinity: r.infinity }
}

impl G1Affine {
    /// Both coordinates canonical, and zero at the identity.
    pub open spec fn wf(&self) -> bool {
        &&& self.x.wf()
        &&& self.y.wf()
        &&& self.infinity ==> self.x@ == 0 && self.y@ == 0
    }

    pub fn identity() -> (r: G1Affine)
        ensures
            r.wf(),
            r@ == g1_identity(),
    {
        G1Affine { x: Fp::zero(), y: Fp::zero(), infinity: true }
    }

    /// Relies on ark-ec's `Affine::is_on_curve` on G1: true for the identity, else whether
    /// `y^2 = x^3 + 4`.
    #[verifier::external_body]
    pub(crate) fn is_on_curve(&self) -> (r: bool)
        requires
            self.wf(),
        ensures
            r == g1_on_curve(self@),
    {
        let a = ArkG1Affine {
            x: Fq::new(BigInt::new(self.x.limbs)),
            y: Fq::new(BigInt::new(self.y.limbs)),
            infinity: self.infinity,
        };
        a.is_on_curve()
    }

    pub fn negate(&self) -> (r: G1Affine)
        requires
            self.wf(),
        ensures
            r.wf(),
            r@ == g1_neg(self@),
    {
        G1Affine { x: self.x, y: self.y.negate(), infinity: self.infinity }
    }

    pub fn equals(&self, o: &G1Affine) -> (r: bool)
        ensures
            r == (self@ == o@),
    {
        self.infinity == o.infinity && self.x.equals(&o.x) && self.y.equals(&o.y)
    }
}

/// `1 - x` for the BLS parameter `x`, which is negative: `1 + |x|`.
pub fn one_minus_x() -> (r: u64)
    ensures
        r == 1 + BLS_X,
{
    assert(BLS_X_IS_NEGATIVE);
    1 + BLS_X
}

/// The endomorphism `(x, y) -> (beta * x, y)`, where `beta` is a non-trivial cube root of
/// unity in `Fq`.
pub fn endomorphism(p: &G1Affine) -> (r: G1Affine)
    requires
        p.wf(),
    ensures
        r.wf(),
        r@ == g1_endomorphism(p@),
{
    let beta = g1_beta();
    let x = p.x.multiply(&beta);
    assert(p.x@ == 0 ==> x@ == 0) by (nonlinear_arith)
        requires
            x@ == fq_mul(p.x@, beta@),
    ;
    G1Affine { x, y: p.y, infinity: p.infinity }
}

/// Reads a compressed point from the first 48 bytes: the flags, then `x`, then the `y`
/// whose sign the flags give.
pub fn read_g1_compressed(bytes: &[u8]) -> (r: Result<G1Affine, SerializationError>)
    ensures
        r matches Ok(p) ==> p.wf(),
        g1_deserialize_result(bytes@, Compress::Yes, Validate::No, g1_result_view(r)),
{
    if bytes.len() < G1_SERIALIZED_SIZE {
        return Err(SerializationError::InvalidData);
    }
    let mut buf = copy_prefix(bytes, G1_SERIALIZED_SIZE);
    let flags = EncodingFlags::decode_flags(&mut buf);
    if !flags.is_compressed {
        return Err(SerializationError::InvalidData);
    }
    if flags.is_infinity {
        return Ok(G1Affine::identity());
    }
    assert(buf@.subrange(0, 48) =~= buf@);
    let x = match deserialize_fq(buf.as_slice(), 0) {
        Some(x) => x,
        None => return Err(SerializationError::InvalidData),
    };
    match g1_y_from_x(&x, flags.is_lexographically_largest) {
        Some(y) => {
            let p = G1Affine { x, y, infinity: false };
            assert forall|o: G1Value| #[trigger]
                g1_decodes_to(bytes@, Compress::Yes, o) implies o == p@ by {
                assert(fq_mul(o.1, o.1) == g1_rhs(x@));
                if o.1 != y@ {
                    lemma_fq_lex_neg(y@);
                }
            }
            Ok(p)
        },
        None => {
            assert forall|o: G1Value| #[trigger]
                g1_decodes_to(bytes@, Compress::Yes, o) implies false by {
                assert(fq_mul(o.1, o.1) == g1_rhs(x@));
            }
            Err(SerializationError::InvalidData)
        },
    }
}

/// Reads an uncompressed point from the first 96 bytes: the flags, then `x` and `y`.
pub fn read_g1_uncompressed(bytes: &[u8]) -> (r: Result<G1Affine, SerializationError>)
    ensures
        r matches Ok(p) ==> p.wf(),
        g1_deserialize_result(bytes@, Compress::No, Validate::No, g1_result_view(r)),
{
    if bytes.len() < 2 * G1_SERIALIZED_SIZE {
        return Err(SerializationError::InvalidData);
    }
    let mut buf = copy_prefix(bytes, 2 * G1_SERIALIZED_SIZE);
    let flags = EncodingFlags::decode_flags(&mut buf);
    if flags.is_compressed {
        return Err(SerializationError::InvalidData);
    }
    if flags.is_infinity {
        return Ok(G1Affine::identity());
    }
    let x = match deserialize_fq(buf.as_slice(), 0) {
        Some(x) => x,
        None => return Err(SerializationError::InvalidData),
    };
    let y = match deserialize_fq(buf.as_slice(), G1_SERIALIZED_SIZE) {
        Some(y) => y,
        None => return Err(SerializationError::InvalidData),
    };
    Ok(G1Affine { x, y, infinity: false })
}

/// The G1 curve parameters and point codec.
pub struct Config;

impl Config {
    /// The number of bytes of an encoding: 48 compressed, 96 uncompressed.
    pub fn serialized_size(compress: Compress) -> (r: usize)
        ensures
            r == g1_size(compress),
    {
        match compress {
            Compress::Yes => G1_SERIALIZED_SIZE,
            Compress::No => 2 * G1_SERIALIZED_SIZE,
        }
    }

    /// Whether `p` lies in the prime-order subgroup, for `p` on the curve: `[x] p` must not
    /// be `p` itself (unless `p` is the identity), and `-[x^2] p` must equal the
    /// endomorphism of `p`.
    pub fn is_in_correct_subgroup_assuming_on_curve(p: &G1Affine) -> (r: bool)
        requires
            p.wf(),
        ensures
            r == g1_subgroup_test(p@),
    {
        let x_times_p = g1_mul_bigint(p, BLS_X);
        if x_times_p.equals(p) && !p.infinity {
            return false;
        }
        let minus_x_squared_times_p = g1_mul_bigint(&x_times_p, BLS_X).negate();
        let endomorphism_p = endomorphism(p);
        minus_x_squared_times_p.equals(&endomorphism_p)
    }

    /// Maps `p` into the prime-order subgroup by multiplying it by the effective cofactor
    /// `1 - x`.
    pub fn clear_cofactor(p: &G1Affine) -> (r: G1Affine)
        requires
            p.wf(),
        ensures
            r.wf(),
            r@ == g1_mul_bigint_of(p@, (1 + BLS_X) as nat),
    {
        let h_eff = one_minus_x();
        g1_mul_bigint(p, h_eff)
    }

    /// Encodes `item`: 48 bytes of `x` when compressed, then 48 of `y` when not, big-endian,
    /// with the flags on the first byte. The identity is written with zero coordinates.
    pub fn serialize_with_mode(item: &G1Affine, compress: Compress) -> (r: Vec<u8>)
        requires
            item.wf(),
        ensures
            r@ == g1_encoding(item@, compress),
    {
        let is_compressed = match compress {
            Compress::Yes => true,
            Compress::No => false,
        };
        let encoding = EncodingFlags {
            is_compressed,
            is_infinity: item.infinity,
            is_lexographically_largest: item.y.is_greater(&item.y.negate()),
        };
        let p = if encoding.is_infinity {
            G1Affine::identity()
        } else {
            *item
        };
        proof {
            lemma_fq_bytes(p.x@);
            lemma_fq_bytes(p.y@);
        }
        let mut bytes = serialize_fq(&p.x);
        if !is_compressed {
            let y_bytes = serialize_fq(&p.y);
            append_bytes(&mut bytes, y_bytes.as_slice());
        }
        encoding.encode_flags(&mut bytes);
        bytes
    }

    /// Decodes a point from the first `serialized_size(compress)` bytes, and when `validate`
    /// asks for it checks that the point is on the curve and in the prime-order subgroup.
    /// A compression flag that disagrees with `compress` is rejected; an infinity flag gives
    /// the identity whatever the other bits hold; the sign flag is read only on a compressed
    /// finite point.
    pub fn deserialize_with_mode(bytes: &[u8], compress: Compress, validate: Validate) -> (r:
        Result<G1Affine, SerializationError>)
        ensures
            r matches Ok(p) ==> p.wf(),
            g1_deserialize_result(bytes@, compress, validate, g1_result_view(r)),
    {
        let read = match compress {
            Compress::Yes => read_g1_compressed(bytes),
            Compress::No => read_g1_uncompressed(bytes),
        };
        let p = match read {
            Ok(p) => p,
            Err(e) => return Err(e),
        };
        match validate {
            Validate::Yes => {
                let on_curve = match compress {
                    Compress::Yes => true,
                    Compress::No => p.is_on_curve(),
                };
                if !on_curve || !Config::is_in_correct_subgroup_assuming_on_curve(&p) {
                    return Err(SerializationError::InvalidData);
                }
            },
            Validate::No => {},
        }
        Ok(p)
    }
}

/// The encoding of a point decodes to it. (Compressed, the point must lie on the curve.)
proof fn lemma_g1_encoding_decodes(p: G1Value, c: Compress)
    requires
        p.0 < fq_modulus(),
        p.1 < fq_modulus(),
        p.2 ==> p.0 == 0 && p.1 == 0,
        c == Compress::Yes ==> g1_on_curve(p),
    ensures
        g1_decodes_to(g1_encoding(p, c), c, p),
{
    let flags = EncodingFlags {
        is_compressed: c == Compress::Yes,
        is_infinity: p.2,
        is_lexographically_largest: fq_lex_largest(p.1),
    };
    lemma_fq_bytes(p.0);
    lemma_fq_bytes(p.1);
    let raw = if c == Compress::Yes {
        be_bytes(p.0, 48)
    } else {
        be_bytes(p.0, 48) + be_bytes(p.1, 48)
    };
    assert(raw[0] == be_bytes(p.0, 48)[0]);
    lemma_flags_byte_round_trip(flags, raw[0]);
    let enc = g1_encoding(p, c);
    assert(enc == raw.update(0, raw[0] | flags.bits()));
    let buf = enc.subrange(0, g1_size(c) as int).update(0, unflagged(enc[0]));
    assert(buf =~= raw);
    assert(buf.subrange(0, 48) =~= be_bytes(p.0, 48));
    if c == Compress::No {
        assert(buf.subrange(48, 96) =~= be_bytes(p.1, 48));
    }
}

/// Round trip: decoding the encoding of a point gives the point back, compressed or not,
/// for every point on the curve (any canonical point when uncompressed), and with
/// validation for every point that passes it.
pub proof fn lemma_g1_round_trip(
    p: G1Value,
    c: Compress,
    v: Validate,
    r: Result<G1Value, SerializationError>,
)
    requires
        p.0 < fq_modulus(),
        p.1 < fq_modulus(),
        p.2 ==> p.0 == 0 && p.1 == 0,
        c == Compress::Yes ==> g1_on_curve(p),
        v == Validate::Yes ==> g1_valid(p),
        g1_deserialize_result(g1_encoding(p, c), c, v, r),
    ensures
        r == Ok::<G1Value, SerializationError>(p),
{
    lemma_g1_encoding_decodes(p, c);
}

/// The identity encodes as zero coordinates with the infinity flag: `0xc0` then 47 zero
/// bytes compressed, `0x40` then 95 zero bytes uncompressed.
pub proof fn lemma_g1_identity_encoding(c: Compress)
    ensures
        g1_encoding(g1_identity(), c) == Seq::new(
            g1_size(c),
            |i: int|
                if i == 0 {
                    if c == Compress::Yes {
                        0xc0u8
                    } else {
                        0x40u8
                    }
                } else {
                    0u8
                },
        ),
{
    lemma_be_bytes_zero(48);
    assert(0u8 | ((0x80u8 | 0x40u8) | 0u8) == 0xc0u8) by (bit_vector);
    assert(0u8 | ((0u8 | 0x40u8) | 0u8) == 0x40u8) by (bit_vector);
    assert(g1_encoding(g1_identity(), c) =~= Seq::new(
        g1_size(c),
        |i: int|
            if i == 0 {
                if c == Compress::Yes {
                    0xc0u8
                } else {
                    0x40u8
                }
            } else {
                0u8
            },
    ));
}

/// Decompression keeps the sign: what a compressed encoding of a finite point on the curve
/// decodes to has the same `x`, a `y` with the same square and, unless it is zero (which
/// equals its own negation), the same sign as the point's `y`.
pub proof fn lemma_g1_decompression_sign(p: G1Value, o: G1Value)
    requires
        p.0 < fq_modulus(),
        p.1 < fq_modulus(),
        !p.2,
        g1_on_curve(p),
        g1_decodes_to(g1_encoding(p, Compress::Yes), Compress::Yes, o),
    ensures
        o.0 == p.0,
        !o.2,
        fq_mul(o.1, o.1) == fq_mul(p.1, p.1),
        o.1 != 0 ==> fq_lex_largest(o.1) == fq_lex_largest(p.1),
{
    let flags = EncodingFlags {
        is_compressed: true,
        is_infinity: false,
        is_lexographically_largest: fq_lex_largest(p.1),
    };
    lemma_fq_bytes(p.0);
    let raw = be_bytes(p.0, 48);
    lemma_flags_byte_round_trip(flags, raw[0]);
    let enc = g1_encoding(p, Compress::Yes);
    let buf = enc.subrange(0, 48).update(0, unflagged(enc[0]));
    assert(buf =~= raw);
    assert(buf.subrange(0, 48) =~= raw);
}

/// A compressed encoding whose `x` has no square root of `x^3 + 4` fails to decode, with
/// `InvalidData`, whether or not validation is asked for.
pub proof fn lemma_g1_rejects_x_without_root(
    bytes: Seq<u8>,
    v: Validate,
    r: Result<G1Value, SerializationError>,
)
    requires
        bytes.len() >= 48,
        EncodingFlags::of_byte(bytes[0]).is_compressed,
        !EncodingFlags::of_byte(bytes[0]).is_infinity,
        forall|y: nat|
            y < fq_modulus() ==> #[trigger] fq_mul(y, y) != g1_rhs(
                be_nat(bytes.subrange(0, 48).update(0, unflagged(bytes[0]))),
            ),
        g1_deserialize_result(bytes, Compress::Yes, v, r),
    ensures
        r == Err::<G1Value, SerializationError>(SerializationError::InvalidData),
{
    let buf = bytes.subrange(0, 48).update(0, unflagged(bytes[0]));
    assert(buf.subrange(0, 48) =~= buf);
    assert forall|o: G1Value| !#[trigger] g1_decodes_to(bytes, Compress::Yes, o) by {
        if g1_decodes_to(bytes, Compress::Yes, o) {
            assert(fq_mul(o.1, o.1) == g1_rhs(be_nat(buf)));
        }
    }
}

/// An encoding whose `x`, or uncompressed `y`, is not below the modulus fails to decode,
/// with `InvalidData`.
pub proof fn lemma_g1_rejects_non_canonical(
    bytes: Seq<u8>,
    c: Compress,
    v: Validate,
    r: Result<G1Value, SerializationError>,
)
    requires
        bytes.len() >= g1_size(c),
        !EncodingFlags::of_byte(bytes[0]).is_infinity,
        ({
            let buf = bytes.subrange(0, g1_size(c) as int).update(0, unflagged(bytes[0]));
            be_nat(buf.subrange(0, 48)) >= fq_modulus() || (c == Compress::No && be_nat(
                buf.subrange(48, 96),
            ) >= fq_modulus())
        }),
        g1_deserialize_result(bytes, c, v, r),
    ensures
        r == Err::<G1Value, SerializationError>(SerializationError::InvalidData),
{
    assert forall|o: G1Value| !#[trigger] g1_decodes_to(bytes, c, o) by {}
}

/// Subgroup rejection: bytes that decode to a point on the curve that fails the subgroup
/// test give `InvalidData` when validation is asked for, and the point when it is not.
pub proof fn lemma_g1_subgroup_rejection(
    bytes: Seq<u8>,
    c: Compress,
    p: G1Value,
    checked: Result<G1Value, SerializationError>,
    unchecked: Result<G1Value, SerializationError>,
)
    requires
        g1_decodes_to(bytes, c, p),
        g1_on_curve(p),
        !g1_subgroup_test(p),
        g1_deserialize_result(bytes, c, Validate::Yes, checked),
        g1_deserialize_result(bytes, c, Validate::No, unchecked),
    ensures
        checked == Err::<G1Value, SerializationError>(SerializationError::InvalidData),
        unchecked == Ok::<G1Value, SerializationError>(p),
{
}

} // verus!
