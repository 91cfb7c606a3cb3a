//! Big-endian byte strings and little-endian 64-bit limbs as natural numbers.
use vstd::prelude::*;

verus! {

/// `256^n`: one more than the largest value that `n` bytes hold.
pub open spec fn byte_base(n: nat) -> nat
    decreases n,
{
    if n == 0 {
        1
    } else {
        256 * byte_base((n - 1) as nat)
    }
}

/// The number that a big-endian byte string denotes.
pub open spec fn be_nat(s: Seq<u8>) -> nat
    decreases s.len(),
{
    if s.len() == 0 {
        0
    } else {
        be_nat(s.drop_last()) * 256 + s.last() as nat
    }
}

/// The `n` big-endian bytes of `v` (taken modulo `256^n`).
pub open spec fn be_bytes(v: nat, n: nat) -> Seq<u8>
    decreases n,
{
    if n == 0 {
        Seq::empty()
    } else {
        be_bytes(v / 256, (n - 1) as nat).push((v % 256) as u8)
    }
}

/// The number held by little-endian 64-bit limbs (least significant limb first).
pub open spec fn limbs_val(s: Seq<u64>) -> nat
    decreases s.len(),
{
    if s.len() == 0 {
        0
    } else {
        s[0] as nat + 0x1_0000_0000_0000_0000 * limbs_val(s.drop_first())
    }
}

pub proof fn lemma_byte_base_adds(a: nat, b: nat)
    ensures
        byte_base(a + b) == byte_base(a) * byte_base(b),
    decreases a,
{
    if a > 0 {
        lemma_byte_base_adds((a - 1) as nat, b);
        assert((a + b - 1) as nat == ((a - 1) as nat + b) as nat);
        let x = byte_base((a - 1) as nat);
        let y = byte_base(b);
        assert(byte_base(a + b) == 256 * byte_base((a + b - 1) as nat));
        assert(byte_base(a) == 256 * x);
        assert(256 * (x * y) == (256 * x) * y) by (nonlinear_arith);
    } else {
        assert(byte_base(a) == 1);
        assert(a + b == b);
    }
}

pub proof fn lemma_byte_base_8()
    ensures
        byte_base(8) == 0x1_0000_0000_0000_0000,
{
    reveal_with_fuel(byte_base, 9);
}

pub proof fn lemma_be_bytes_len(v: nat, n: nat)
    ensures
        be_bytes(v, n).len() == n,
    decreases n,
{
    if n > 0 {
        lemma_be_bytes_len(v / 256, (n - 1) as nat);
    }
}

/// The bytes of a value that fits read back as that value.
pub proof fn lemma_be_nat_of_bytes(v: nat, n: nat)
    requires
        v < byte_base(n),
    ensures
        be_nat(be_bytes(v, n)) == v,
    decreases n,
{
    if n > 0 {
        let m = (n - 1) as nat;
        lemma_be_nat_of_bytes(v / 256, m);
        assert(be_bytes(v, n).drop_last() =~= be_bytes(v / 256, m));
    }
}

/// Reading a byte string and writing it back at the same width gives it back.
pub proof fn lemma_bytes_of_be_nat(s: Seq<u8>)
    ensures
        be_bytes(be_nat(s), s.len()) == s,
    decreases s.len(),
{
    if s.len() > 0 {
        let init = s.drop_last();
        lemma_bytes_of_be_nat(init);
        let v = be_nat(s);
        assert(v / 256 == be_nat(init));
        assert(v % 256 == s.last() as nat);
        assert(s =~= init.push(s.last()));
    }
}

pub proof fn lemma_be_nat_append(s: Seq<u8>, t: Seq<u8>)
    ensures
        be_nat(s + t) == be_nat(s) * byte_base(t.len()) + be_nat(t),
    decreases t.len(),
{
    if t.len() == 0 {
        assert(s + t =~= s);
        assert(byte_base(0) == 1);
        assert(be_nat(t) == 0);
    } else {
        let t1 = t.drop_last();
        lemma_be_nat_append(s, t1);
        assert((s + t).drop_last() =~= s + t1);
        let a = be_nat(s);
        let b = byte_base(t1.len());
        assert((s + t).last() == t.last());
        assert(byte_base(t.len()) == 256 * b);
        assert((a * b) * 256 == a * (256 * b)) by (nonlinear_arith);
    }
}

/// Splitting a width at a limb boundary splits the bytes.
pub proof fn lemma_be_bytes_split(hi: nat, lo: nat, n: nat)
    requires
        hi < byte_base(n),
        lo < 0x1_0000_0000_0000_0000,
    ensures
        be_bytes(hi * 0x1_0000_0000_0000_0000 + lo, n + 8) == be_bytes(hi, n) + be_bytes(lo, 8),
{
    lemma_byte_base_8();
    let t = be_bytes(hi, n) + be_bytes(lo, 8);
    lemma_be_bytes_len(hi, n);
    lemma_be_bytes_len(lo, 8);
    lemma_be_nat_of_bytes(hi, n);
    lemma_be_nat_of_bytes(lo, 8);
    lemma_be_nat_append(be_bytes(hi, n), be_bytes(lo, 8));
    lemma_bytes_of_be_nat(t);
}

pub proof fn lemma_be_bytes_zero(n: nat)
    ensures
        be_bytes(0, n) == Seq::new(n, |i: int| 0u8),
    decreases n,
{
    if n > 0 {
        lemma_be_bytes_zero((n - 1) as nat);
        assert(be_bytes(0, n) =~= Seq::new(n, |i: int| 0u8));
    }
}

/// A value below `256^(n-1) * 32` leaves the top three bits of its first byte clear.
pub proof fn lemma_be_bytes_top_byte(v: nat, n: nat)
    requires
        n >= 1,
        v < byte_base((n - 1) as nat) * 32,
    ensures
        be_bytes(v, n)[0] < 32,
{
    lemma_byte_base_adds((n - 1) as nat, 1);
    reveal_with_fuel(byte_base, 2);
    lemma_be_bytes_len(v, n);
    let s = be_bytes(v, n);
    lemma_be_nat_of_bytes(v, n);
    let head = s.subrange(0, 1);
    let tail = s.subrange(1, n as int);
    assert(s =~= head + tail);
    lemma_be_nat_append(head, tail);
    reveal_with_fuel(be_nat, 2);
    assert(head.drop_last() =~= Seq::<u8>::empty());
    let b = byte_base((n - 1) as nat);
    let h = s[0] as nat;
    assert(be_nat(head) == h);
    if h >= 32 {
        assert(h * b >= 32 * b) by (nonlinear_arith)
            requires
                h >= 32,
        ;
    }
}

pub proof fn lemma_limbs_bound(s: Seq<u64>)
    ensures
        limbs_val(s) < byte_base(8 * s.len()),
    decreases s.len(),
{
    if s.len() > 0 {
        lemma_limbs_bound(s.drop_first());
        lemma_byte_base_8();
        lemma_byte_base_adds(8, (8 * (s.len() - 1)) as nat);
        assert(8 + 8 * (s.len() - 1) == 8 * s.len());
    }
}

/// Limbs read from the 8-byte groups of a big-endian string, last group first, hold
/// the string's value.
pub proof fn lemma_be_nat_limbs(s: Seq<u8>, l: Seq<u64>)
    requires
        s.len() == 8 * l.len(),
        forall|j: int|
            0 <= j < l.len() ==> #[trigger] l[j] as nat == be_nat(
                s.subrange(s.len() - 8 * (j + 1), s.len() - 8 * j),
            ),
    ensures
        be_nat(s) == limbs_val(l),
    decreases l.len(),
{
    if l.len() > 0 {
        let n = s.len();
        let front = s.subrange(0, n - 8);
        let back = s.subrange(n - 8, n as int);
        let rest = l.drop_first();
        assert forall|j: int| 0 <= j < rest.len() implies #[trigger] rest[j] as nat == be_nat(
            front.subrange(front.len() - 8 * (j + 1), front.len() - 8 * j),
        ) by {
            assert(rest[j] == l[j + 1]);
            assert(front.subrange(front.len() - 8 * (j + 1), front.len() - 8 * j) =~= s.subrange(
                n - 8 * (j + 2),
                n - 8 * (j + 1),
            ));
        }
        lemma_be_nat_limbs(front, rest);
        assert(s =~= front + back);
        lemma_be_nat_append(front, back);
        lemma_byte_base_8();
        assert(l[0] as nat == be_nat(back));
    }
}

/// Relies on `u64::to_be_bytes`: the eight bytes of the integer, most significant first.
#[verifier::external_body]
pub(crate) fn u64_to_be_bytes(v: u64) -> (r: [u8; 8])
    ensures
        r@ == be_bytes(v as nat, 8),
{
    v.to_be_bytes()
}

/// Relies on `u64::from_be_bytes`: the integer whose big-endian bytes are the eight at `start`.
#[verifier::external_body]
pub(crate) fn u64_from_be_bytes(b: &[u8], start: usize) -> (r: u64)
    requires
        start + 8 <= b@.len(),
    ensures
        r as nat == be_nat(b@.subrange(start as int, start + 8)),
{
    u64::from_be_bytes(b[start..start + 8].try_into().unwrap())
}

/// Appends `src` to `out`.
pub fn append_bytes(out: &mut Vec<u8>, src: &[u8])
    ensures
        final(out)@ == old(out)@ + src@,
{
    let mut i: usize = 0;
    while i < src.len()
        invariant
            0 <= i <= src@.len(),
            out@ == old(out)@ + src@.subrange(0, i as int),
        decreases src@.len() - i,
    {
        out.push(src[i]);
        i = i + 1;
        assert(src@.subrange(0, i as int) =~= src@.subrange(0, i - 1).push(src@[i - 1]));
    }
    assert(src@.subrange(0, src@.len() as int) =~= src@);
}

/// The first `n` bytes of `bytes`, copied.
pub fn copy_prefix(bytes: &[u8], n: usize) -> (r: Vec<u8>)
    requires
        n <= bytes@.len(),
    ensures
        r@ == bytes@.subrange(0, n as int),
{
    let mut out: Vec<u8> = Vec::new();
    let mut i: usize = 0;
    while i < n
        invariant
            0 <= i <= n,
            n <= bytes@.len(),
            out@ == bytes@.subrange(0, i as int),
        decreases n - i,
    {
        out.push(bytes[i]);
        i = i + 1;
        assert(out@ =~= bytes@.subrange(0, i as int));
    }
    out
}

} // verus!
