//! CRC-32/ISCSI (CRC-32C) checksums, computed by the `crc` crate.

use vstd::prelude::*;
use crc::{Crc, CRC_32_ISCSI};

verus! {

/// Eight (or `k`) bit steps of the reflected CRC-32C register (polynomial 0x82F63B78).
pub open spec fn crc32c_shift(c: u32, k: nat) -> u32
    decreases k,
{
    if k == 0 {
        c
    } else {
        let next = if c & 1u32 == 1u32 { (c >> 1u32) ^ 0x82F6_3B78u32 } else { c >> 1u32 };
        crc32c_shift(next, (k - 1) as nat)
    }
}

/// The CRC-32C register after feeding `s`, starting from all ones.
pub open spec fn crc32c_register(s: Seq<u8>) -> u32
    decreases s.len(),
{
    if s.len() == 0 {
        0xFFFF_FFFFu32
    } else {
        crc32c_shift(crc32c_register(s.drop_last()) ^ (s.last() as u32), 8)
    }
}

/// CRC-32/ISCSI of `s`: reflected input and output, initial value and final
/// xor all ones.
pub open spec fn spec_crc32c(s: Seq<u8>) -> u32 {
    crc32c_register(s) ^ 0xFFFF_FFFFu32
}

/// CRC-32/ISCSI checksum of `data`, computed by `crc::Crc::<u32>::checksum`
/// with the `CRC_32_ISCSI` catalogue parameters (poly 0x1EDC6F41 reflected,
/// init and xorout 0xFFFFFFFF). Trusted: that the crate computes exactly this
/// catalogue algorithm.
#[verifier::external_body]
pub(crate) fn crc32_iscsi(data: &[u8]) -> (r: u32)
    ensures
        r == spec_crc32c(data@),
{
    Crc::<u32>::new(&CRC_32_ISCSI).checksum(data)
}

} // verus!
