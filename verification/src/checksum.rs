//! The checksum that the archive keeps of everything in it: CRC-32.

use vstd::prelude::*;

verus! {

/// One step of the register, for one bit.
pub open spec fn crc32_bit(register: u32) -> u32 {
    if register % 2 == 1 {
        (register / 2) ^ 0xEDB8_8320
    } else {
        register / 2
    }
}

/// `n` steps of the register.
pub open spec fn crc32_bits(register: u32, n: nat) -> u32
    decreases n,
{
    if n == 0 {
        register
    } else {
        crc32_bit(crc32_bits(register, (n - 1) as nat))
    }
}

/// The register after bytes: each is added to its low end, and takes eight steps.
pub open spec fn crc32_register(data: Seq<u8>) -> u32
    decreases data.len(),
{
    if data.len() == 0 {
        0xFFFF_FFFF
    } else {
        crc32_bits(crc32_register(data.drop_last()) ^ (data.last() as u32), 8)
    }
}

/// The CRC-32 of bytes, with the IEEE polynomial in its reflected form.
pub open spec fn crc32(data: Seq<u8>) -> u32 {
    crc32_register(data) ^ 0xFFFF_FFFF
}

/// Calls `crc32fast::hash`, which computes the CRC-32 with the IEEE polynomial 0xEDB88320, from a
/// register of ones, inverted at the end.
#[verifier::external_body]
pub(crate) fn hash(data: &[u8]) -> (r: u32)
    ensures
        r == crc32(data@),
{
    crc32fast::hash(data)
}

} // verus!
