//! Points of G2, the twist `y^2 = x^3 + 4(u + 1)` over `Fq2`: the wire format (each
//! coordinate as `c1` then `c0`), decompression and the subgroup check by the untwist-
//! Frobenius-twist endomorphism `psi`.
use crate::bytes::{append_bytes, be_bytes, be_nat, copy_prefix, lemma_be_bytes_zero, limbs_val};
use crate::encoding::{
    lemma_flags_byte_round_trip, unflagged, Compress, EncodingFlags, SerializationError,
    Validate, G2_SERIALIZED_SIZE,
};
use crate::field::{
    deserialize_fq2, fq2_add, fq2_bytes, fq2_frobenius, fq2_lex_largest, fq2_mul, fq2_neg,
    fq_modulus, fq_mul, fq_neg, lemma_fq2_lex_neg, lemma_fq_bytes, lemma_fq_lex_neg,
    serialize_fq2, Fp, Fp2, Fq2Value,
};
use crate::g1::{BLS_X, BLS_X_IS_NEGATIVE};
use ark_bls12_381::{g2::Config as ArkG2Config, Fq, Fq2, G2Affine as ArkG2Affine};
use ark_ec::{short_weierstrass::SWCurveConfig, AffineRepr, CurveGroup};
use ark_ff::{BigInt, PrimeField};
use vstd::prelude::*;

verus! {

/// A G2 point as `(x, y, infinity)`.
pub type G2Value = (Fq2Value, Fq2Value, bool);

pub open spec fn fq2_canonical(a: Fq2Value) -> bool {
    a.0 < fq_modulus() && a.1 < fq_modulus()
}

/// `x^3 + 4(u + 1)`.
pub open spec fn g2_rhs(x: Fq2Value) -> Fq2Value {
    fq2_add(fq2_mul(fq2_mul(x, x), x), (4nat, 4nat))
}

pub open spec fn g2_on_curve(p: G2Value) -> bool {
    p.2 || fq2_mul(p.1, p.1) == g2_rhs(p.0)
}

pub open spec fn g2_identity() -> G2Value {
    ((0nat, 0nat), (0nat, 0nat), true)
}

pub open spec fn g2_neg(p: G2Value) -> G2Value {
    (p.0, fq2_neg(p.1), p.2)
}

/// `c1` of `1 / (u + 1)^((q - 1) / 3)`, whose `c0` is zero:
/// 4002409555221667392624310435006688643935503118305586438271171395842971157480381377015405980053539358417135540939437,
/// written in base `2^64`.
pub open spec fn psi_x_c1_value() -> nat {
    (((((0x1a0111ea397fe699) * 0x1_0000_0000_0000_0000 + 0xec02408663d4de85)
        * 0x1_0000_0000_0000_0000 + 0xaa0d857d89759ad4) * 0x1_0000_0000_0000_0000
        + 0x897d29650fb85f9b) * 0x1_0000_0000_0000_0000 + 0x409427eb4f49fffd)
        * 0x1_0000_0000_0000_0000 + 0x8bfd00000000aaad
}

/// `1 / (u + 1)^((q - 1) / 2)` = (
/// 2973677408986561043442465346520108879172042883009249989176415018091420807192182638567116318576472649347015917690530,
/// 1028732146235106349975324479215795277384839936929757896155643118032610843298655225875571310552543014690878354869257),
/// written in base `2^64`.
pub open spec fn psi_y_value() -> Fq2Value {
    (
        (((((0x135203e60180a68e) * 0x1_0000_0000_0000_0000 + 0xe2e9c448d77a2cd9)
            * 0x1_0000_0000_0000_0000 + 0x1c3dedd930b1cf60) * 0x1_0000_0000_0000_0000
            + 0xef396489f61eb45e) * 0x1_0000_0000_0000_0000 + 0x304466cf3e67fa0a)
            * 0x1_0000_0000_0000_0000 + 0xf1ee7b04121bdea2,
        (((((0x6af0e0437ff400b) * 0x1_0000_0000_0000_0000 + 0x6831e36d6bd17ffe)
            * 0x1_0000_0000_0000_0000 + 0x48395dabc2d3435e) * 0x1_0000_0000_0000_0000
            + 0x77f76e17009241c5) * 0x1_0000_0000_0000_0000 + 0xee67992f72ec05f4)
            * 0x1_0000_0000_0000_0000 + 0xc81084fbede3cc09,
    )
}

/// `psi(x, y) = (x^q / (u + 1)^((q - 1) / 3), y^q / (u + 1)^((q - 1) / 2))`.
pub open spec fn g2_psi(p: G2Value) -> G2Value {
    let fx = fq2_frobenius(p.0);
    let fy = fq2_frobenius(p.1);
    (
        (fq_mul(fq_neg(psi_x_c1_value()), fx.1), fq_mul(psi_x_c1_value(), fx.0)),
        fq2_mul(fy, psi_y_value()),
        p.2,
    )
}

/// `[k] p`, in affine form, as ark-ec's scalar multiplication computes it.
pub uninterp spec fn g2_mul_bigint_of(p: G2Value, k: nat) -> G2Value;

/// The subgroup test: `[x] p` (with `x` negative) equals `psi(p)`.
pub open spec fn g2_subgroup_test(p: G2Value) -> bool {
    let x_times_p = g2_mul_bigint_of(p, BLS_X as nat);
    let signed = if BLS_X_IS_NEGATIVE {
        g2_neg(x_times_p)
    } else {
        x_times_p
    };
    signed == g2_psi(p)
}

/// What validation asks of a decoded point.
pub open spec fn g2_valid(p: G2Value) -> bool {
    g2_on_curve(p) && g2_subgroup_test(p)
}

/// `y` is a square root of `x^3 + 4(u + 1)` whose sign matches `greatest`; zero matches
/// either.
pub open spec fn g2_y_candidate(x: Fq2Value, greatest: bool, y: Fq2Value) -> bool {
    &&& fq2_canonical(y)
    &&& fq2_mul(y, y) == g2_rhs(x)
    &&& fq2_lex_largest(y) == greatest || y == (0nat, 0nat)
}

pub open spec fn g2_size(c: Compress) -> nat {
    if c == Compress::Yes {
        96
    } else {
        192
    }
}

/// The encoding of `p`: `x` (and `y` when uncompressed), each as `c1` then `c0` in 48
/// big-endian bytes, with the flags on the first byte.
pub open spec fn g2_encoding(p: G2Value, c: Compress) -> Seq<u8> {
    let flags = EncodingFlags {
        is_compressed: c == Compress::Yes,
        is_infinity: p.2,
        is_lexographically_largest: fq2_lex_largest(p.1),
    };
    let raw = if c == Compress::Yes {
        fq2_bytes(p.0)
    } else {
        fq2_bytes(p.0) + fq2_bytes(p.1)
    };
    raw.update(0, raw[0] | flags.bits())
}

/// The `Fq2` element whose 96 bytes (`c1`, then `c0`) start at `start`.
pub open spec fn fq2_at(buf: Seq<u8>, start: int) -> Fq2Value {
    (be_nat(buf.subrange(start + 48, start + 96)), be_nat(buf.subrange(start, start + 48)))
}

/// `bytes` begin with an encoding of `p`. The infinity flag stands for the identity
/// whatever the other bits hold; the sign flag is read only on a compressed finite point.
pub open spec fn g2_decodes_to(bytes: Seq<u8>, c: Compress, p: G2Value) -> bool {
    let flags = EncodingFlags::of_byte(bytes[0]);
    let buf = bytes.subrange(0, g2_size(c) as int).update(0, unflagged(bytes[0]));
    let x = fq2_at(buf, 0);
    &&& bytes.len() >= g2_size(c)
    &&& flags.is_compressed == (c == Compress::Yes)
    &&& if flags.is_infinity {
        p == g2_identity()
    } else {
        &&& fq2_canonical(x)
        &&& !p.2
        &&& p.0 == x
        &&& if c == Compress::Yes {
            g2_y_candidate(x, flags.is_lexographically_largest, p.1)
        } else {
            p.1 == fq2_at(buf, 96) && fq2_canonical(p.1)
        }
    }
}

/// What decoding `bytes` gives: the one point that they encode, when there is one and it
/// passes validation if that is asked for; `InvalidData` otherwise.
pub open spec fn g2_deserialize_result(
    bytes: Seq<u8>,
    c: Compress,
    v: Validate,
    r: Result<G2Value, SerializationError>,
) -> bool {
    match r {
        Ok(p) => {
            &&& g2_decodes_to(bytes, c, p)
            &&& forall|o: G2Value| #[trigger] g2_decodes_to(bytes, c, o) ==> o == p
            &&& v == Validate::Yes ==> g2_valid(p)
        },
        Err(e) => {
            &&& e == SerializationError::InvalidData
            &&& forall|o: G2Value| #[trigger]
                g2_decodes_to(bytes, c, o) ==> v == Validate::Yes && !g2_valid(o)
        },
    }
}

/// An affine point of G2. The identity has both coordinates zero.
#[derive(Clone, Copy, Debug)]
pub struct G2Affine {
    pub x: Fp2,
    pub y: Fp2,
    pub infinity: bool,
}

impl View for G2Affine {
    type V = G2Value;

    open spec fn view(&self) -> G2Value {
        (self.x@, self.y@, self.infinity)
    }
}

pub open spec fn g2_result_view(r: Result<G2Affine, SerializationError>) -> Result<
    G2Value,
    SerializationError,
> {
    match r {
        Ok(p) => Ok(p@),
        Err(e) => Err(e),
    }
}

/// Relies on ark-ec's `Affine::get_point_from_x_unchecked` on G2: it takes a square root
/// `s` of `x^3 + 4(u + 1)` (ark-ff's `sqrt` on `Fq2`, `None` when there is none) and
/// returns the larger of `s` and `-s` when `greatest` is set, the smaller otherwise. As
/// `Fq2` is a field, `s` and `-s` are the only square roots.
#[verifier::external_body]
fn g2_y_from_x(x: &Fp2, greatest: bool) -> (r: Option<Fp2>)
    requires
        x.wf(),
    ensures
        match r {
            Some(y) => {
                &&& y.wf()
                &&& g2_y_candidate(x@, greatest, y@)
                &&& forall|z: Fq2Value|
                    fq2_canonical(z) && #[trigger] fq2_mul(z, z) == g2_rhs(x@) ==> z == y@ || z
                        == fq2_neg(y@)
            },
            None => forall|z: Fq2Value|
                fq2_canonical(z) ==> #[trigger] fq2_mul(z, z) != g2_rhs(x@),
        },
{
    let a = Fq2::new(Fq::new(BigInt(x.c0.limbs)), Fq::new(BigInt(x.c1.limbs)));
    match ArkG2Affine::get_point_from_x_unchecked(a, greatest) {
        Some(p) => Some(Fp2 { c0: Fp { limbs: p.y.c0.into_bigint().0 }, c1: Fp { limbs: p.y.c1.into_bigint().0 } }),
        None => None,
    }
}

/// Relies on ark-ec's `AffineRepr::mul_bigint` on G2 with the one-limb scalar `k`, brought
/// back to affine form by `into_affine`, which gives the identity as `(0, 0)`.
#[verifier::external_body]
fn g2_mul_bigint(p: &G2Affine, k: u64) -> (r: G2Affine)
    requires
        p.wf(),
    ensures
        r.wf(),
        r@ == g2_mul_bigint_of(p@, k as nat),
{
    let [a, b, c, d] = [p.x.c0, p.x.c1, p.y.c0, p.y.c1].map(|f| Fq::new(BigInt(f.limbs)));
    let q = ArkG2Affine { x: Fq2::new(a, b), y: Fq2::new(c, d), infinity: p.infinity };
    let r = q.mul_bigint([k]).into_affine();
    let f = [r.x.c0, r.x.c1, r.y.c0, r.y.c1].map(|e| Fp { limbs: e.into_bigint().0 });
    G2Affine { x: Fp2 { c0: f[0], c1: f[1] }, y: Fp2 { c0: f[2], c1: f[3] }, infinity: r.infinity }
}

/// The image of `p` under cofactor clearing, as ark-bls12-381 computes it.
pub uninterp spec fn g2_clear_cofactor_of(p: G2Value) -> G2Value;

/// Relies on ark-bls12-381's `SWCurveConfig::clear_cofactor` for G2, the endomorphism-based
/// map `[x^2 - x - 1] P + [x - 1] psi(P) + psi^2(2P)` into the prime-order subgroup.
#[verifier::external_body]
fn g2_clear_cofactor(p: &G2Affine) -> (r: G2Affine)
    requires
        p.wf(),
    ensures
        r.wf(),
        r@ == g2_clear_cofactor_of(p@),
{
    let [a, b, c, d] = [p.x.c0, p.x.c1, p.y.c0, p.y.c1].map(|f| Fq::new(BigInt(f.limbs)));
    let q = ArkG2Affine { x: Fq2::new(a, b), y: Fq2::new(c, d), infinity: p.infinity };
    let r = ArkG2Config::clear_cofactor(&q);
    let f = [r.x.c0, r.x.c1, r.y.c0, r.y.c1].map(|e| Fp { limbs: e.into_bigint().0 });
    G2Affine { x: Fp2 { c0: f[0], c1: f[1] }, y: Fp2 { c0: f[2], c1: f[3] }, infinity: r.infinity }
}

proof fn lemma_fq_mul_zero(a: nat)
    ensures
        fq_mul(a, 0) == 0,
        fq_mul(0, a) == 0,
{
    assert(a * 0 == 0 && 0 * a == 0) by (nonlinear_arith);
}

fn psi_x_c1() -> (r: Fp)
    ensures
        r.wf(),
        r@ == psi_x_c1_value(),
{
    let r = Fp {
        limbs: [
            0x8bfd00000000aaad,
            0x409427eb4f49fffd,
            0x897d29650fb85f9b,
            0xaa0d857d89759ad4,
            0xec02408663d4de85,
            0x1a0111ea397fe699,
        ],
    };
    reveal_with_fuel(limbs_val, 7);
    r
}

fn psi_y() -> (r: Fp2)
    ensures
        r.wf(),
        r@ == psi_y_value(),
{
    let c0 = Fp {
        limbs: [
            0xf1ee7b04121bdea2,
            0x304466cf3e67fa0a,
            0xef396489f61eb45e,
            0x1c3dedd930b1cf60,
            0xe2e9c448d77a2cd9,
            0x135203e60180a68e,
        ],
    };
    let c1 = Fp {
        limbs: [
            0xc81084fbede3cc09,
            0xee67992f72ec05f4,
            0x77f76e17009241c5,
            0x48395dabc2d3435e,
            0x6831e36d6bd17ffe,
            0x06af0e0437ff400b,
        ],
    };
    reveal_with_fuel(limbs_val, 7);
    Fp2 { c0, c1 }
}

impl G2Affine {
    /// All coordinates canonical, and zero at the identity.
    pub open spec fn wf(&self) -> bool {
        &&& self.x.wf()
        &&& self.y.wf()
        &&& self.infinity ==> self.x@ == (0nat, 0nat) && self.y@ == (0nat, 0nat)
    }

    pub fn identity() -> (r: G2Affine)
        ensures
            r.wf(),
            r@ == g2_identity(),
    {
        G2Affine { x: Fp2::zero(), y: Fp2::zero(), infinity: true }
    }

    /// Relies on ark-ec's `Affine::is_on_curve` on G2: true for the identity, else whether
    /// `y^2 = x^3 + 4(u + 1)`.
    #[verifier::external_body]
    pub(crate) fn is_on_curve(&self) -> (r: bool)
        requires
            self.wf(),
        ensures
            r == g2_on_curve(self@),
    {
        let x = Fq2::new(Fq::new(BigInt(self.x.c0.limbs)), Fq::new(BigInt(self.x.c1.limbs)));
        let y = Fq2::new(Fq::new(BigInt(self.y.c0.limbs)), Fq::new(BigInt(self.y.c1.limbs)));
        ArkG2Affine { x, y, infinity: self.infinity }.is_on_curve()
    }

    pub fn negate(&self) -> (r: G2Affine)
        requires
            self.wf(),
        ensures
            r.wf(),
            r@ == g2_neg(self@),
    {
        G2Affine { x: self.x, y: self.y.negate(), infinity: self.infinity }
    }

    pub fn equals(&self, o: &G2Affine) -> (r: bool)
        ensures
            r == (self@ == o@),
    {
        self.infinity == o.infinity && self.x.equals(&o.x) && self.y.equals(&o.y)
    }
}

/// `psi`, the untwist-Frobenius-twist endomorphism: it maps `(x, y)` to
/// `(x^q / (u + 1)^((q - 1) / 3), y^q / (u + 1)^((q - 1) / 2))`.
pub fn p_power_endomorphism(p: &G2Affine) -> (r: G2Affine)
    requires
        p.wf(),
    ensures
        r.wf(),
        r@ == g2_psi(p@),
{
    let fx = p.x.frobenius();
    let fy = p.y.frobenius();
    let coeff_x = psi_x_c1();
    let x = Fp2 { c0: coeff_x.negate().multiply(&fx.c1), c1: coeff_x.multiply(&fx.c0) };
    let y = fy.multiply(&psi_y());
    proof {
        lemma_fq_mul_zero(fq_neg(psi_x_c1_value()));
        lemma_fq_mul_zero(psi_x_c1_value());
        lemma_fq_mul_zero(psi_y_value().0);
        lemma_fq_mul_zero(psi_y_value().1);
    }
    G2Affine { x, y, infinity: p.infinity }
}

/// Reads a compressed point from the first 96 bytes: the flags, then `x`, then the `y`
/// whose sign the flags give.
pub fn read_g2_compressed(bytes: &[u8]) -> (r: Result<G2Affine, SerializationError>)
    ensures
        r matches Ok(p) ==> p.wf(),
        g2_deserialize_result(bytes@, Compress::Yes, Validate::No, g2_result_view(r)),
{
    if bytes.len() < G2_SERIALIZED_SIZE {
        return Err(SerializationError::InvalidData);
    }
    let mut buf = copy_prefix(bytes, G2_SERIALIZED_SIZE);
    let flags = EncodingFlags::decode_flags(&mut buf);
    if !flags.is_compressed {
        return Err(SerializationError::InvalidData);
    }
    if flags.is_infinity {
        return Ok(G2Affine::identity());
    }
    let x = match deserialize_fq2(buf.as_slice(), 0) {
        Some(x) => x,
        None => return Err(SerializationError::InvalidData),
    };
    match g2_y_from_x(&x, flags.is_lexographically_largest) {
        Some(y) => {
            let p = G2Affine { x, y, infinity: false };
            assert forall|o: G2Value| #[trigger]
                g2_decodes_to(bytes@, Compress::Yes, o) implies o == p@ by {
                assert(fq2_mul(o.1, o.1) == g2_rhs(x@));
                if o.1 != y@ {
                    if y@.0 != 0 {
                        lemma_fq_lex_neg(y@.0);
                    }
                    if y@.1 != 0 {
                        lemma_fq_lex_neg(y@.1);
                    }
                    lemma_fq2_lex_neg(y@);
                }
            }
            Ok(p)
        },
        None => {
            assert forall|o: G2Value| #[trigger]
                g2_decodes_to(bytes@, Compress::Yes, o) implies false by {
                assert(fq2_mul(o.1, o.1) == g2_rhs(x@));
            }
            Err(SerializationError::InvalidData)
        },
    }
}

/// Reads an uncompressed point from the first 192 bytes: the flags, then `x` and `y`.
pub fn read_g2_uncompressed(bytes: &[u8]) -> (r: Result<G2Affine, SerializationError>)
    ensures
        r matches Ok(p) ==> p.wf(),
        g2_deserialize_result(bytes@, Compress::No, Validate::No, g2_result_view(r)),
{
    if bytes.len() < 2 * G2_SERIALIZED_SIZE {
        return Err(SerializationError::InvalidData);
    }
    let mut buf = copy_prefix(bytes, 2 * G2_SERIALIZED_SIZE);
    let flags = EncodingFlags::decode_flags(&mut buf);
    if flags.is_compressed {
        return Err(SerializationError::InvalidData);
    }
    if flags.is_infinity {
        return Ok(G2Affine::identity());
    }
    let x = match deserialize_fq2(buf.as_slice(), 0) {
        Some(x) => x,
        None => return Err(SerializationError::InvalidData),
    };
    let y = match deserialize_fq2(buf.as_slice(), G2_SERIALIZED_SIZE) {
        Some(y) => y,
        None => return Err(SerializationError::InvalidData),
    };
    Ok(G2Affine { x, y, infinity: false })
}

/// The G2 curve parameters and point codec.
pub struct Config;

impl Config {
    /// The number of bytes of an encoding: 96 compressed, 192 uncompressed.
    pub fn serialized_size(compress: Compress) -> (r: usize)
        ensures
            r == g2_size(compress),
    {
        match compress {
            Compress::Yes => G2_SERIALIZED_SIZE,
            Compress::No => 2 * G2_SERIALIZED_SIZE,
        }
    }

    /// Whether `point` lies in the prime-order subgroup, for `point` on the curve: `[x]`
    /// of it (with `x` negative) must equal `psi` of it.
    pub fn is_in_correct_subgroup_assuming_on_curve(point: &G2Affine) -> (r: bool)
        requires
            point.wf(),
        ensures
            r == g2_subgroup_test(point@),
    {
        let mut x_times_point = g2_mul_bigint(point, BLS_X);
        if BLS_X_IS_NEGATIVE {
            x_times_point = x_times_point.negate();
        }
        let p_times_point = p_power_endomorphism(point);
        x_times_point.equals(&p_times_point)
    }

    /// Maps `p` into the prime-order subgroup by the endomorphism-based method of
    /// Budroni and Pintore.
    pub fn clear_cofactor(p: &G2Affine) -> (r: G2Affine)
        requires
            p.wf(),
        ensures
            r.wf(),
            r@ == g2_clear_cofactor_of(p@),
    {
        g2_clear_cofactor(p)
    }

    /// Encodes `item`: 96 bytes of `x` when compressed, then 96 of `y` when not, each as
    /// `c1` then `c0`, with the flags on the first byte. The identity is written with zero
    /// coordinates.
    pub fn serialize_with_mode(item: &G2Affine, compress: Compress) -> (r: Vec<u8>)
        requires
            item.wf(),
        ensures
            r@ == g2_encoding(item@, compress),
    {
        let is_compressed = match compress {
            Compress::Yes => true,
            Compress::No => false,
        };
        let encoding = EncodingFlags {
            is_compressed,
            is_infinity: item.infinity,
            is_lexographically_largest: item.y.is_greater(&item.y.negate()),
        };
        let p = if encoding.is_infinity {
            G2Affine::identity()
        } else {
            *item
        };
        proof {
            lemma_fq_bytes(p.x@.1);
        }
        let mut bytes = serialize_fq2(&p.x);
        if !is_compressed {
            let y_bytes = serialize_fq2(&p.y);
            append_bytes(&mut bytes, y_bytes.as_slice());
        }
        encoding.encode_flags(&mut bytes);
        bytes
    }

    /// Decodes a point from the first `serialized_size(compress)` bytes, and when `validate`
    /// asks for it checks that the point is on the curve and in the prime-order subgroup.
    /// A compression flag that disagrees with `compress` is rejected; an infinity flag gives
    /// the identity whatever the other bits hold; the sign flag is read only on a compressed
    /// finite point.
    pub fn deserialize_with_mode(bytes: &[u8], compress: Compress, validate: Validate) -> (r:
        Result<G2Affine, SerializationError>)
        ensures
            r matches Ok(p) ==> p.wf(),
            g2_deserialize_result(bytes@, compress, validate, g2_result_view(r)),
    {
        let read = match compress {
            Compress::Yes => read_g2_compressed(bytes),
            Compress::No => read_g2_uncompressed(bytes),
        };
        let p = match read {
            Ok(p) => p,
            Err(e) => return Err(e),
        };
        match validate {
            Validate::Yes => {
                let on_curve = match compress {
                    Compress::Yes => true,
                    Compress::No => p.is_on_curve(),
                };
                if !on_curve || !Config::is_in_correct_subgroup_assuming_on_curve(&p) {
                    return Err(SerializationError::InvalidData);
                }
            },
            Validate::No => {},
        }
        Ok(p)
    }
}

/// The encoding of a point decodes to it. (Compressed, the point must lie on the curve.)
proof fn lemma_g2_encoding_decodes(p: G2Value, c: Compress)
    requires
        fq2_canonical(p.0),
        fq2_canonical(p.1),
        p.2 ==> p.0 == (0nat, 0nat) && p.1 == (0nat, 0nat),
        c == Compress::Yes ==> g2_on_curve(p),
    ensures
        g2_decodes_to(g2_encoding(p, c), c, p),
{
    let flags = EncodingFlags {
        is_compressed: c == Compress::Yes,
        is_infinity: p.2,
        is_lexographically_largest: fq2_lex_largest(p.1),
    };
    lemma_fq_bytes(p.0.0);
    lemma_fq_bytes(p.0.1);
    lemma_fq_bytes(p.1.0);
    lemma_fq_bytes(p.1.1);
    let raw = if c == Compress::Yes {
        fq2_bytes(p.0)
    } else {
        fq2_bytes(p.0) + fq2_bytes(p.1)
    };
    assert(raw[0] == be_bytes(p.0.1, 48)[0]);
    lemma_flags_byte_round_trip(flags, raw[0]);
    let enc = g2_encoding(p, c);
    let buf = enc.subrange(0, g2_size(c) as int).update(0, unflagged(enc[0]));
    assert(buf =~= raw);
    assert(buf.subrange(0, 48) =~= be_bytes(p.0.1, 48));
    assert(buf.subrange(48, 96) =~= be_bytes(p.0.0, 48));
    if c == Compress::No {
        assert(buf.subrange(96, 144) =~= be_bytes(p.1.1, 48));
        assert(buf.subrange(144, 192) =~= be_bytes(p.1.0, 48));
    }
}

/// Round trip: decoding the encoding of a point gives the point back, compressed or not,
/// for every point on the curve (any canonical point when uncompressed), and with
/// validation for every point that passes it.
pub proof fn lemma_g2_round_trip(
    p: G2Value,
    c: Compress,
    v: Validate,
    r: Result<G2Value, SerializationError>,
)
    requires
        fq2_canonical(p.0),
        fq2_canonical(p.1),
        p.2 ==> p.0 == (0nat, 0nat) && p.1 == (0nat, 0nat),
        c == Compress::Yes ==> g2_on_curve(p),
        v == Validate::Yes ==> g2_valid(p),
        g2_deserialize_result(g2_encoding(p, c), c, v, r),
    ensures
        r == Ok::<G2Value, SerializationError>(p),
{
    lemma_g2_encoding_decodes(p, c);
}

/// The identity encodes as zero coordinates with the infinity flag: `0xc0` then 95 zero
/// bytes compressed, `0x40` then 191 zero bytes uncompressed.
pub proof fn lemma_g2_identity_encoding(c: Compress)
    ensures
        g2_encoding(g2_identity(), c) == Seq::new(
            g2_size(c),
            |i: int|
                if i == 0 {
                    if c == Compress::Yes {
                        0xc0u8
                    } else {
                        0x40u8
                    }
                } else {
                    0u8
                },
        ),
{
    lemma_be_bytes_zero(48);
    assert(0u8 | ((0x80u8 | 0x40u8) | 0u8) == 0xc0u8) by (bit_vector);
    assert(0u8 | ((0u8 | 0x40u8) | 0u8) == 0x40u8) by (bit_vector);
    assert(g2_encoding(g2_identity(), c) =~= Seq::new(
        g2_size(c),
        |i: int|
            if i == 0 {
                if c == Compress::Yes {
                    0xc0u8
                } else {
                    0x40u8
                }
            } else {
                0u8
            },
    ));
}

/// Decompression keeps the sign: what a compressed encoding of a finite point on the curve
/// decodes to has the same `x`, a `y` with the same square and, unless it is zero (which
/// equals its own negation), the same sign as the point's `y`.
pub proof fn lemma_g2_decompression_sign(p: G2Value, o: G2Value)
    requires
        fq2_canonical(p.0),
        fq2_canonical(p.1),
        !p.2,
        g2_on_curve(p),
        g2_decodes_to(g2_encoding(p, Compress::Yes), Compress::Yes, o),
    ensures
        o.0 == p.0,
        !o.2,
        fq2_mul(o.1, o.1) == fq2_mul(p.1, p.1),
        o.1 != (0nat, 0nat) ==> fq2_lex_largest(o.1) == fq2_lex_largest(p.1),
{
    lemma_g2_encoding_decodes(p, Compress::Yes);
    let flags = EncodingFlags {
        is_compressed: true,
        is_infinity: false,
        is_lexographically_largest: fq2_lex_largest(p.1),
    };
    lemma_fq_bytes(p.0.1);
    let raw = fq2_bytes(p.0);
    assert(raw[0] == be_bytes(p.0.1, 48)[0]);
    lemma_flags_byte_round_trip(flags, raw[0]);
}

/// A compressed encoding whose `x` has no square root of `x^3 + 4(u + 1)` fails to decode,
/// with `InvalidData`, whether or not validation is asked for.
pub proof fn lemma_g2_rejects_x_without_root(
    bytes: Seq<u8>,
    v: Validate,
    r: Result<G2Value, SerializationError>,
)
    requires
        bytes.len() >= 96,
        EncodingFlags::of_byte(bytes[0]).is_compressed,
        !EncodingFlags::of_byte(bytes[0]).is_infinity,
        forall|y: Fq2Value|
            fq2_canonical(y) ==> #[trigger] fq2_mul(y, y) != g2_rhs(
                fq2_at(bytes.subrange(0, 96).update(0, unflagged(bytes[0])), 0),
            ),
        g2_deserialize_result(bytes, Compress::Yes, v, r),
    ensures
        r == Err::<G2Value, SerializationError>(SerializationError::InvalidData),
{
    let buf = bytes.subrange(0, 96).update(0, unflagged(bytes[0]));
    assert forall|o: G2Value| !#[trigger] g2_decodes_to(bytes, Compress::Yes, o) by {
        if g2_decodes_to(bytes, Compress::Yes, o) {
            assert(fq2_mul(o.1, o.1) == g2_rhs(fq2_at(buf, 0)));
        }
    }
}

/// An encoding with a coordinate half not below the modulus fails to decode, with
/// `InvalidData`.
pub proof fn lemma_g2_rejects_non_canonical(
    bytes: Seq<u8>,
    c: Compress,
    v: Validate,
    r: Result<G2Value, SerializationError>,
)
    requires
        bytes.len() >= g2_size(c),
        !EncodingFlags::of_byte(bytes[0]).is_infinity,
        ({
            let buf = bytes.subrange(0, g2_size(c) as int).update(0, unflagged(bytes[0]));
            !fq2_canonical(fq2_at(buf, 0)) || (c == Compress::No && !fq2_canonical(
                fq2_at(buf, 96),
            ))
        }),
        g2_deserialize_result(bytes, c, v, r),
    ensures
        r == Err::<G2Value, SerializationError>(SerializationError::InvalidData),
{
    assert forall|o: G2Value| !#[trigger] g2_decodes_to(bytes, c, o) by {}
}

/// Subgroup rejection: bytes that decode to a point on the curve that fails the subgroup
/// test give `InvalidData` when validation is asked for, and the point when it is not.
pub proof fn lemma_g2_subgroup_rejection(
    bytes: Seq<u8>,
    c: Compress,
    p: G2Value,
    checked: Result<G2Value, SerializationError>,
    unchecked: Result<G2Value, SerializationError>,
)
    requires
        g2_decodes_to(bytes, c, p),
        g2_on_curve(p),
        !g2_subgroup_test(p),
        g2_deserialize_result(bytes, c, Validate::Yes, checked),
        g2_deserialize_result(bytes, c, Validate::No, unchecked),
    ensures
        checked == Err::<G2Value, SerializationError>(SerializationError::InvalidData),
        unchecked == Ok::<G2Value, SerializationError>(p),
{
}

} // verus!
