//! The three flag bits stamped on the first byte of an encoded point, and the modes of
//! the codec.
use vstd::prelude::*;

verus! {

/// Bytes of one encoded base-field element.
pub const G1_SERIALIZED_SIZE: usize = 48;

/// Bytes of one encoded quadratic-extension element (`c1` then `c0`).
pub const G2_SERIALIZED_SIZE: usize = 96;

/// Whether a point is written with its `x` coordinate only.
#[derive(Clone, Copy, Debug, PartialEq, Eq, Structural)]
pub enum Compress {
    Yes,
    No,
}

/// Whether decoding checks that the point lies in the prime-order subgroup.
#[derive(Clone, Copy, Debug, PartialEq, Eq, Structural)]
pub enum Validate {
    Yes,
    No,
}

/// Why a byte string does not decode to a point.
#[derive(Clone, Copy, Debug, PartialEq, Eq, Structural)]
pub enum SerializationError {
    /// The flags, a coordinate or the point itself is not acceptable: the flags do not
    /// match the mode, a coordinate is not below the modulus, `x` belongs to no curve
    /// point, the point is off the curve or outside the prime-order subgroup, or the
    /// input is too short.
    InvalidData,
}

/// The flags carried by the top three bits of an encoding's first byte.
#[derive(Clone, Copy, Debug, PartialEq, Eq, Structural)]
pub struct EncodingFlags {
    /// Bit 7.
    pub is_compressed: bool,
    /// Bit 6.
    pub is_infinity: bool,
    /// Bit 5: `y` is the larger of `y` and `-y`.
    pub is_lexographically_largest: bool,
}

/// The first byte with the three flag bits cleared.
pub open spec fn unflagged(b: u8) -> u8 {
    b & 0x1f
}

impl EncodingFlags {
    /// The bits that `encode_flags` sets. The sign bit is written only for a compressed
    /// finite point, where it is meaningful.
    pub open spec fn bits(self) -> u8 {
        (if self.is_compressed {
            0x80u8
        } else {
            0u8
        }) | (if self.is_infinity {
            0x40u8
        } else {
            0u8
        }) | (if self.is_compressed && !self.is_infinity && self.is_lexographically_largest {
            0x20u8
        } else {
            0u8
        })
    }

    /// The flags that a first byte carries.
    pub open spec fn of_byte(b: u8) -> EncodingFlags {
        EncodingFlags {
            is_compressed: (b >> 7u8) & 1 == 1,
            is_infinity: (b >> 6u8) & 1 == 1,
            is_lexographically_largest: (b >> 5u8) & 1 == 1,
        }
    }

    /// The flags as they read back after encoding: the sign bit survives only on a
    /// compressed finite point.
    pub open spec fn written(self) -> EncodingFlags {
        EncodingFlags {
            is_compressed: self.is_compressed,
            is_infinity: self.is_infinity,
            is_lexographically_largest: self.is_compressed && !self.is_infinity
                && self.is_lexographically_largest,
        }
    }

    /// Reads the flags from the first byte of `bytes`.
    pub fn get_flags(bytes: &[u8]) -> (r: EncodingFlags)
        requires
            bytes@.len() > 0,
        ensures
            r == EncodingFlags::of_byte(bytes@[0]),
    {
        let b = bytes[0];
        EncodingFlags {
            is_compressed: (b >> 7u8) & 1 == 1,
            is_infinity: (b >> 6u8) & 1 == 1,
            is_lexographically_largest: (b >> 5u8) & 1 == 1,
        }
    }

    /// Sets the flag bits on the first byte of `bytes`, leaving its other bits and the
    /// other bytes as they were.
    pub fn encode_flags(&self, bytes: &mut Vec<u8>)
        requires
            old(bytes)@.len() > 0,
        ensures
            final(bytes)@ == old(bytes)@.update(0, old(bytes)@[0] | self.bits()),
    {
        let x: u8 = if self.is_compressed {
            0x80u8
        } else {
            0u8
        };
        let y: u8 = if self.is_infinity {
            0x40u8
        } else {
            0u8
        };
        let z: u8 = if self.is_compressed && !self.is_infinity && self.is_lexographically_largest {
            0x20u8
        } else {
            0u8
        };
        let b = bytes[0] | ((x | y) | z);
        bytes.set(0, b);
    }

    /// Reads the flags from the first byte of `bytes` and clears them there, leaving the
    /// coordinate bits.
    pub fn decode_flags(bytes: &mut Vec<u8>) -> (r: EncodingFlags)
        requires
            old(bytes)@.len() > 0,
        ensures
            r == EncodingFlags::of_byte(old(bytes)@[0]),
            final(bytes)@ == old(bytes)@.update(0, unflagged(old(bytes)@[0])),
    {
        let r = EncodingFlags::get_flags(bytes.as_slice());
        let b = bytes[0] & 0x1fu8;
        bytes.set(0, b);
        r
    }
}

/// Stamping flags on a first byte whose top three bits are clear, then reading and
/// clearing them, gives back the byte and the flags as written.
pub proof fn lemma_flags_byte_round_trip(flags: EncodingFlags, b: u8)
    requires
        b < 32,
    ensures
        unflagged(b | flags.bits()) == b,
        EncodingFlags::of_byte(b | flags.bits()) == flags.written(),
{
    let c = flags.is_compressed;
    let i = flags.is_infinity;
    let l = flags.is_lexographically_largest;
    let x: u8 = if c { 0x80u8 } else { 0u8 };
    let y: u8 = if i { 0x40u8 } else { 0u8 };
    let z: u8 = if c && !i && l { 0x20u8 } else { 0u8 };
    assert(flags.bits() == (x | y) | z);
    assert((b | ((x | y) | z)) & 0x1f == b) by (bit_vector)
        requires
            b < 32,
            x == 0 || x == 0x80,
            y == 0 || y == 0x40,
            z == 0 || z == 0x20,
    ;
    assert(((b | ((x | y) | z)) >> 7u8) & 1 == 1 <==> x == 0x80) by (bit_vector)
        requires
            b < 32,
            x == 0 || x == 0x80,
            y == 0 || y == 0x40,
            z == 0 || z == 0x20,
    ;
    assert(((b | ((x | y) | z)) >> 6u8) & 1 == 1 <==> y == 0x40) by (bit_vector)
        requires
            b < 32,
            x == 0 || x == 0x80,
            y == 0 || y == 0x40,
            z == 0 || z == 0x20,
    ;
    assert(((b | ((x | y) | z)) >> 5u8) & 1 == 1 <==> z == 0x20) by (bit_vector)
        requires
            b < 32,
            x == 0 || x == 0x80,
            y == 0 || y == 0x40,
            z == 0 || z == 0x20,
    ;
}

/// Flag isolation: on a buffer whose first byte has its top three bits clear, encoding
/// flags and then decoding them restores every byte and yields the flags as written.
pub proof fn lemma_flags_round_trip(flags: EncodingFlags, buf: Seq<u8>)
    requires
        buf.len() > 0,
        buf[0] < 32,
    ensures
        ({
            let enc = buf.update(0, buf[0] | flags.bits());
            &&& enc.update(0, unflagged(enc[0])) == buf
            &&& EncodingFlags::of_byte(enc[0]) == flags.written()
        }),
{
    lemma_flags_byte_round_trip(flags, buf[0]);
    let enc = buf.update(0, buf[0] | flags.bits());
    assert(enc.update(0, unflagged(enc[0])) =~= buf);
}

} // verus!
