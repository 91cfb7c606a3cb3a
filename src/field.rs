//! Elements of the BLS12-381 base field `Fq` and of its quadratic extension `Fq2`, held as
//! canonical integers, with their big-endian encodings.
use crate::bytes::{
    append_bytes, be_bytes, be_nat, byte_base, lemma_be_bytes_len, lemma_be_bytes_top_byte,
    lemma_be_nat_of_bytes, lemma_be_bytes_split, lemma_be_nat_limbs, lemma_limbs_bound,
    limbs_val, u64_from_be_bytes, u64_to_be_bytes,
};
use ark_bls12_381::{Fq, Fq2};
use ark_ff::{BigInt, Field, PrimeField};
use vstd::prelude::*;

verus! {

/// The base-field modulus `q` =
/// 4002409555221667393417789825735904156556882819939007885332058136124031650490837864442687629129015664037894272559787,
/// written in base `2^64`.
pub open spec fn fq_modulus() -> nat {
    (((((0x1a0111ea397fe69a) * 0x1_0000_0000_0000_0000 + 0x4b1ba7b6434bacd7) * 0x1_0000_0000_0000_0000
        + 0x64774b84f38512bf) * 0x1_0000_0000_0000_0000 + 0x6730d2a0f6b0f624)
        * 0x1_0000_0000_0000_0000 + 0x1eabfffeb153ffff) * 0x1_0000_0000_0000_0000
        + 0xb9feffffffffaaab
}

/// `-a` in `Fq`, for `a < q`.
pub open spec fn fq_neg(a: nat) -> nat {
    if a == 0 {
        0
    } else {
        (fq_modulus() - a) as nat
    }
}

/// `a * b` in `Fq`.
pub open spec fn fq_mul(a: nat, b: nat) -> nat {
    (a * b) % fq_modulus()
}

/// `a + b` in `Fq`.
pub open spec fn fq_add(a: nat, b: nat) -> nat {
    (a + b) % fq_modulus()
}

/// `a - b` in `Fq`.
pub open spec fn fq_sub(a: nat, b: nat) -> nat {
    ((a - b) % (fq_modulus() as int)) as nat
}

/// `a` is the larger of `a` and `-a`, both read as integers in `[0, q)`.
pub open spec fn fq_lex_largest(a: nat) -> bool {
    a > fq_neg(a)
}

/// An element of `Fq2 = Fq[u] / (u^2 + 1)` as the pair `(c0, c1)` for `c0 + c1 * u`.
pub type Fq2Value = (nat, nat);

pub open spec fn fq2_neg(a: Fq2Value) -> Fq2Value {
    (fq_neg(a.0), fq_neg(a.1))
}

pub open spec fn fq2_add(a: Fq2Value, b: Fq2Value) -> Fq2Value {
    (fq_add(a.0, b.0), fq_add(a.1, b.1))
}

/// `(a0 + a1 u)(b0 + b1 u)` with `u^2 = -1`.
pub open spec fn fq2_mul(a: Fq2Value, b: Fq2Value) -> Fq2Value {
    (fq_sub(fq_mul(a.0, b.0), fq_mul(a.1, b.1)), fq_add(fq_mul(a.0, b.1), fq_mul(a.1, b.0)))
}

/// The order on `Fq2`: by `c1`, then by `c0`.
pub open spec fn fq2_gt(a: Fq2Value, b: Fq2Value) -> bool {
    if a.1 != b.1 {
        a.1 > b.1
    } else {
        a.0 > b.0
    }
}

/// `a` is the larger of `a` and `-a` in the order on `Fq2`.
pub open spec fn fq2_lex_largest(a: Fq2Value) -> bool {
    fq2_gt(a, fq2_neg(a))
}

/// The Frobenius map `a -> a^q`, which on `Fq2` is conjugation.
pub open spec fn fq2_frobenius(a: Fq2Value) -> Fq2Value {
    (a.0, fq_neg(a.1))
}

/// A base-field element: an integer in `[0, q)` held in six little-endian 64-bit limbs.
#[derive(Clone, Copy, Debug)]
pub struct Fp {
    pub limbs: [u64; 6],
}

impl View for Fp {
    type V = nat;

    open spec fn view(&self) -> nat {
        limbs_val(self.limbs@)
    }
}

/// An element `c0 + c1 * u` of the quadratic extension.
#[derive(Clone, Copy, Debug)]
pub struct Fp2 {
    pub c0: Fp,
    pub c1: Fp,
}

impl View for Fp2 {
    type V = Fq2Value;

    open spec fn view(&self) -> Fq2Value {
        (self.c0@, self.c1@)
    }
}

/// Relies on ark-ff's `PrimeField::from_bigint` for `Fq`: it accepts exactly the integers
/// below the modulus, and `into_bigint` gives them back unchanged.
#[verifier::external_body]
fn fq_from_bigint(limbs: [u64; 6]) -> (r: Option<Fp>)
    ensures
        r.is_some() == (limbs_val(limbs@) < fq_modulus()),
        r matches Some(f) ==> f.limbs@ == limbs@,
{
    match Fq::from_bigint(BigInt::new(limbs)) {
        Some(f) => Some(Fp { limbs: f.into_bigint().0 }),
        None => None,
    }
}

/// Two limb sequences of the same length that hold the same number are equal.
pub proof fn lemma_limbs_injective(a: Seq<u64>, b: Seq<u64>)
    requires
        a.len() == b.len(),
        limbs_val(a) == limbs_val(b),
    ensures
        a == b,
    decreases a.len(),
{
    if a.len() > 0 {
        let ra = limbs_val(a.drop_first());
        let rb = limbs_val(b.drop_first());
        assert(a[0] as nat + 0x1_0000_0000_0000_0000 * ra == b[0] as nat + 0x1_0000_0000_0000_0000
            * rb);
        assert(a[0] == b[0] && ra == rb) by (nonlinear_arith)
            requires
                a[0] as nat + 0x1_0000_0000_0000_0000 * ra == b[0] as nat + 0x1_0000_0000_0000_0000
                    * rb,
                a[0] < 0x1_0000_0000_0000_0000,
                b[0] < 0x1_0000_0000_0000_0000,
        ;
        lemma_limbs_injective(a.drop_first(), b.drop_first());
        assert forall|i: int| 0 <= i < a.len() implies a[i] == b[i] by {
            if i > 0 {
                assert(a[i] == a.drop_first()[i - 1]);
                assert(b[i] == b.drop_first()[i - 1]);
            }
        }
        assert(a =~= b);
    } else {
        assert(a =~= b);
    }
}

/// The 48 bytes of an element below the modulus read back as that element, and leave the
/// top three bits of the first byte clear for the flags.
pub proof fn lemma_fq_bytes(v: nat)
    requires
        v < fq_modulus(),
    ensures
        be_bytes(v, 48).len() == 48,
        be_bytes(v, 48)[0] < 32,
        be_nat(be_bytes(v, 48)) == v,
{
    reveal_with_fuel(byte_base, 49);
    lemma_be_bytes_len(v, 48);
    lemma_be_bytes_top_byte(v, 48);
    lemma_be_nat_of_bytes(v, 48);
}

/// `a` and `-a` differ in which is the larger, unless `a` is zero.
pub proof fn lemma_fq_lex_neg(a: nat)
    requires
        0 < a < fq_modulus(),
    ensures
        fq_lex_largest(a) != fq_lex_largest(fq_neg(a)),
        fq_neg(fq_neg(a)) == a,
        fq_neg(a) < fq_modulus(),
        fq_neg(a) != 0,
{
}

/// In `Fq2`, `a` and `-a` differ in which is the larger, unless `a` is zero.
pub proof fn lemma_fq2_lex_neg(a: Fq2Value)
    requires
        a.0 < fq_modulus(),
        a.1 < fq_modulus(),
        a != (0nat, 0nat),
    ensures
        fq2_lex_largest(a) != fq2_lex_largest(fq2_neg(a)),
{
    assert(fq2_neg(fq2_neg(a)) == a);
}

impl Fp {
    pub open spec fn wf(&self) -> bool {
        self@ < fq_modulus()
    }

    /// The element held by `limbs`, if they hold an integer below the modulus.
    pub fn from_limbs(limbs: [u64; 6]) -> (r: Option<Fp>)
        ensures
            r.is_some() == (limbs_val(limbs@) < fq_modulus()),
            r matches Some(f) ==> f.wf() && f.limbs@ == limbs@,
    {
        fq_from_bigint(limbs)
    }

    pub fn zero() -> (r: Fp)
        ensures
            r.wf(),
            r@ == 0,
    {
        let r = Fp { limbs: [0u64; 6] };
        assert(r.limbs@ =~= seq![0u64, 0, 0, 0, 0, 0]);
        reveal_with_fuel(limbs_val, 7);
        r
    }

    /// Relies on ark-ff's `Neg` for `Fq`: `q - a`, or zero for zero.
    #[verifier::external_body]
    pub(crate) fn negate(&self) -> (r: Fp)
        requires
            self.wf(),
        ensures
            r.wf(),
            r@ == fq_neg(self@),
    {
        Fp { limbs: (-Fq::new(BigInt::new(self.limbs))).into_bigint().0 }
    }

    /// Relies on ark-ff's `Mul` for `Fq`: the product modulo `q`.
    #[verifier::external_body]
    pub(crate) fn multiply(&self, o: &Fp) -> (r: Fp)
        requires
            self.wf(),
            o.wf(),
        ensures
            r.wf(),
            r@ == fq_mul(self@, o@),
    {
        Fp { limbs: (Fq::new(BigInt::new(self.limbs)) * Fq::new(BigInt::new(o.limbs))).into_bigint().0 }
    }

    /// Relies on ark-ff's `PartialOrd` for `Fq`, which compares the integers in `[0, q)`.
    #[verifier::external_body]
    pub(crate) fn is_greater(&self, o: &Fp) -> (r: bool)
        requires
            self.wf(),
            o.wf(),
        ensures
            r == (self@ > o@),
    {
        Fq::new(BigInt::new(self.limbs)) > Fq::new(BigInt::new(o.limbs))
    }

    pub fn equals(&self, o: &Fp) -> (r: bool)
        ensures
            r == (self@ == o@),
    {
        let r = self.limbs[0] == o.limbs[0] && self.limbs[1] == o.limbs[1] && self.limbs[2]
            == o.limbs[2] && self.limbs[3] == o.limbs[3] && self.limbs[4] == o.limbs[4]
            && self.limbs[5] == o.limbs[5];
        proof {
            if r {
                assert(self.limbs@ =~= o.limbs@);
            }
            if self@ == o@ {
                lemma_limbs_injective(self.limbs@, o.limbs@);
            }
        }
        r
    }
}

impl Fp2 {
    pub open spec fn wf(&self) -> bool {
        self.c0.wf() && self.c1.wf()
    }

    pub fn zero() -> (r: Fp2)
        ensures
            r.wf(),
            r@ == (0nat, 0nat),
    {
        Fp2 { c0: Fp::zero(), c1: Fp::zero() }
    }

    pub fn negate(&self) -> (r: Fp2)
        requires
            self.wf(),
        ensures
            r.wf(),
            r@ == fq2_neg(self@),
    {
        Fp2 { c0: self.c0.negate(), c1: self.c1.negate() }
    }

    /// Relies on ark-ff's `Mul` for `Fq2` (`QuadExtField` with non-residue `-1`).
    #[verifier::external_body]
    pub(crate) fn multiply(&self, o: &Fp2) -> (r: Fp2)
        requires
            self.wf(),
            o.wf(),
        ensures
            r.wf(),
            r@ == fq2_mul(self@, o@),
    {
        let a = Fq2::new(Fq::new(BigInt::new(self.c0.limbs)), Fq::new(BigInt::new(self.c1.limbs)));
        let b = Fq2::new(Fq::new(BigInt::new(o.c0.limbs)), Fq::new(BigInt::new(o.c1.limbs)));
        let r = a * b;
        Fp2 { c0: Fp { limbs: r.c0.into_bigint().0 }, c1: Fp { limbs: r.c1.into_bigint().0 } }
    }

    /// Relies on ark-ff's `Field::frobenius_map_in_place` for `Fq2` with power 1: `c0` is
    /// kept and `c1` is multiplied by the coefficient `-1` of ark-bls12-381's `Fq2Config`.
    #[verifier::external_body]
    pub(crate) fn frobenius(&self) -> (r: Fp2)
        requires
            self.wf(),
        ensures
            r.wf(),
            r@ == fq2_frobenius(self@),
    {
        let mut a = Fq2::new(Fq::new(BigInt::new(self.c0.limbs)), Fq::new(BigInt::new(self.c1.limbs)));
        a.frobenius_map_in_place(1);
        Fp2 { c0: Fp { limbs: a.c0.into_bigint().0 }, c1: Fp { limbs: a.c1.into_bigint().0 } }
    }

    /// Relies on ark-ff's `PartialOrd` for `Fq2` (`QuadExtField`): `c1` decides, then `c0`.
    #[verifier::external_body]
    pub(crate) fn is_greater(&self, o: &Fp2) -> (r: bool)
        requires
            self.wf(),
            o.wf(),
        ensures
            r == fq2_gt(self@, o@),
    {
        let a = Fq2::new(Fq::new(BigInt::new(self.c0.limbs)), Fq::new(BigInt::new(self.c1.limbs)));
        a > Fq2::new(Fq::new(BigInt::new(o.c0.limbs)), Fq::new(BigInt::new(o.c1.limbs)))
    }

    pub fn equals(&self, o: &Fp2) -> (r: bool)
        ensures
            r == (self@ == o@),
    {
        self.c0.equals(&o.c0) && self.c1.equals(&o.c1)
    }
}

/// The 48 big-endian bytes of a base-field element.
pub fn serialize_fq(f: &Fp) -> (r: Vec<u8>)
    ensures
        r@ == be_bytes(f@, 48),
{
    let l = f.limbs;
    let mut out: Vec<u8> = Vec::new();
    let mut i: usize = 0;
    while i < 6
        invariant
            0 <= i <= 6,
            l == f.limbs,
            out@ == be_bytes(limbs_val(l@.subrange(6 - i, 6)), (8 * i) as nat),
        decreases 6 - i,
    {
        let chunk = u64_to_be_bytes(l[5 - i]);
        proof {
            let hi_s = l@.subrange(6 - i, 6);
            let s = l@.subrange(5 - i, 6);
            assert(s.drop_first() =~= hi_s);
            assert(s[0] == l[5 - i]);
            lemma_limbs_bound(hi_s);
            lemma_be_bytes_split(limbs_val(hi_s), l[5 - i] as nat, (8 * i) as nat);
            assert(limbs_val(s) == limbs_val(hi_s) * 0x1_0000_0000_0000_0000 + l[5 - i] as nat);
        }
        append_bytes(&mut out, chunk.as_slice());
        i = i + 1;
    }
    assert(l@.subrange(0, 6) =~= l@);
    out
}

/// The base-field element whose 48 big-endian bytes start at `start`, if they denote an
/// integer below the modulus.
pub fn deserialize_fq(bytes: &[u8], start: usize) -> (r: Option<Fp>)
    requires
        start + 48 <= bytes@.len(),
    ensures
        r.is_some() == (be_nat(bytes@.subrange(start as int, start + 48)) < fq_modulus()),
        r matches Some(f) ==> f.wf() && f@ == be_nat(bytes@.subrange(start as int, start + 48)),
{
    let _n = bytes.len();
    let l5 = u64_from_be_bytes(bytes, start);
    let l4 = u64_from_be_bytes(bytes, start + 8);
    let l3 = u64_from_be_bytes(bytes, start + 16);
    let l2 = u64_from_be_bytes(bytes, start + 24);
    let l1 = u64_from_be_bytes(bytes, start + 32);
    let l0 = u64_from_be_bytes(bytes, start + 40);
    let limbs = [l0, l1, l2, l3, l4, l5];
    proof {
        let s = bytes@.subrange(start as int, start + 48);
        assert forall|j: int| 0 <= j < 6 implies #[trigger] limbs@[j] as nat == be_nat(
            s.subrange(s.len() - 8 * (j + 1), s.len() - 8 * j),
        ) by {
            assert(s.subrange(s.len() - 8 * (j + 1), s.len() - 8 * j) =~= bytes@.subrange(
                start + 48 - 8 * (j + 1),
                start + 48 - 8 * j,
            ));
        }
        lemma_be_nat_limbs(s, limbs@);
    }
    fq_from_bigint(limbs)
}

/// The 96 bytes of an `Fq2` element: `c1`, then `c0`.
pub open spec fn fq2_bytes(a: Fq2Value) -> Seq<u8> {
    be_bytes(a.1, 48) + be_bytes(a.0, 48)
}

/// The 96 bytes of an `Fq2` element: `c1`, then `c0`.
pub fn serialize_fq2(a: &Fp2) -> (r: Vec<u8>)
    ensures
        r@ == fq2_bytes(a@),
{
    let mut out = serialize_fq(&a.c1);
    let c0 = serialize_fq(&a.c0);
    append_bytes(&mut out, c0.as_slice());
    out
}

/// The `Fq2` element whose 96 bytes (`c1`, then `c0`) start at `start`, if both halves
/// denote integers below the modulus.
pub fn deserialize_fq2(bytes: &[u8], start: usize) -> (r: Option<Fp2>)
    requires
        start + 96 <= bytes@.len(),
    ensures
        r.is_some() == (be_nat(bytes@.subrange(start as int, start + 48)) < fq_modulus()
            && be_nat(bytes@.subrange(start + 48, start + 96)) < fq_modulus()),
        r matches Some(a) ==> a.wf() && a@ == (
            be_nat(bytes@.subrange(start + 48, start + 96)),
            be_nat(bytes@.subrange(start as int, start + 48)),
        ),
{
    let _n = bytes.len();
    let c1 = match deserialize_fq(bytes, start) {
        Some(c) => c,
        None => return None,
    };
    let c0 = match deserialize_fq(bytes, start + 48) {
        Some(c) => c,
        None => return None,
    };
    Some(Fp2 { c0, c1 })
}

} // verus!
