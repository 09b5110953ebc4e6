//! CRC32C (Castagnoli) checksum, table-driven.
//!
//! A small, non-security-sensitive integrity check: it detects page corruption
//! and does not resist tampering.

use vstd::prelude::*;

verus! {

/// Reflected Castagnoli polynomial (0x1EDC6F41 reflected).
pub const POLY: u32 = 0x82F6_3B78;

/// One bit of the division: shift right, and subtract the polynomial where a
/// one fell out.
pub open spec fn crc_bit(c: u32) -> u32 {
    if c & 1 == 1 {
        (c >> 1) ^ 0x82F6_3B78
    } else {
        c >> 1
    }
}

/// `n` bits of the division.
pub open spec fn crc_bits(c: u32, n: nat) -> u32
    decreases n,
{
    if n == 0 {
        c
    } else {
        crc_bit(crc_bits(c, (n - 1) as nat))
    }
}

/// The register after all of `s`, from `start`.
pub open spec fn crc_fold(start: u32, s: Seq<u8>) -> u32
    decreases s.len(),
{
    if s.len() == 0 {
        start
    } else {
        crc_bits(crc_fold(start, s.drop_last()) ^ s.last() as u32, 8)
    }
}

/// The CRC32C of a byte string.
pub open spec fn crc32c_of(s: Seq<u8>) -> u32 {
    crc_fold(0xFFFF_FFFF, s) ^ 0xFFFF_FFFF
}

spec fn crc8(c: u32) -> u32 {
    crc_bit(crc_bit(crc_bit(crc_bit(crc_bit(crc_bit(crc_bit(crc_bit(c))))))))
}

proof fn lemma_crc8(c: u32)
    ensures
        crc_bits(c, 8) == crc8(c),
{
    reveal_with_fuel(crc_bits, 9);
}

proof fn lemma_byte_step(c: u32)
    ensures
        crc_bits(c, 8) == (c >> 8) ^ crc_bits(c & 0xFF, 8),
{
    lemma_crc8(c);
    lemma_crc8(c & 0xFF);
    assert(crc8(c) == (c >> 8) ^ crc8(c & 0xFF)) by (bit_vector);
}

/// The table that turns a whole byte at a time: entry `i` is the register `i`
/// after one byte.
pub fn build_table() -> (table: [u32; 256])
    ensures
        forall|i: int| 0 <= i < 256 ==> #[trigger] table@[i] == crc_bits(i as u32, 8),
{
    let mut table: [u32; 256] = [0u32;256];
    let mut i: usize = 0;
    while i < 256
        invariant
            i <= 256,
            forall|k: int| 0 <= k < i ==> #[trigger] table@[k] == crc_bits(k as u32, 8),
        decreases 256 - i,
    {
        let mut crc: u32 = i as u32;
        let mut bit: u32 = 0;
        while bit < 8
            invariant
                bit <= 8,
                crc == crc_bits(i as u32, bit as nat),
            decreases 8 - bit,
        {
            if crc & 1 == 1 {
                crc = (crc >> 1) ^ POLY;
            } else {
                crc = crc >> 1;
            }
            bit = bit + 1;
        }
        table[i] = crc;
        i = i + 1;
    }
    table
}

/// Compute the CRC32C of `data`.
pub fn crc32c(data: &[u8]) -> (crc: u32)
    ensures
        crc == crc32c_of(data@),
{
    let table = build_table();
    let mut crc: u32 = 0xFFFF_FFFF;
    let mut i: usize = 0;
    while i < data.len()
        invariant
            i <= data@.len(),
            crc == crc_fold(0xFFFF_FFFF, data@.take(i as int)),
            forall|k: int| 0 <= k < 256 ==> #[trigger] table@[k] == crc_bits(k as u32, 8),
        decreases data@.len() - i,
    {
        let mixed: u32 = crc ^ data[i] as u32;
        let idx: usize = (mixed & 0xFF) as usize;
        assert(mixed & 0xFF < 256) by (bit_vector);
        proof {
            lemma_byte_step(mixed);
            assert(data@.take(i + 1).drop_last() =~= data@.take(i as int));
        }
        crc = (mixed >> 8) ^ table[idx];
        assert((crc_fold(0xFFFF_FFFF, data@.take(i as int)) ^ data@[i as int] as u32) == mixed);
        i = i + 1;
    }
    assert(data@.take(i as int) =~= data@);
    crc ^ 0xFFFF_FFFF
}

} // verus!
