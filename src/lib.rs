//! Point encoding for the BLS12-381 pairing-friendly curve: flag bits, the compressed and
//! uncompressed wire formats of G1 and G2 points, decompression and subgroup checks.
pub mod bytes;
pub mod encoding;
pub mod field;
pub mod g1;
pub mod g2;
