//! CRC32 checksums over page payloads.

use crate::error::LsmError;
use vstd::prelude::*;

verus! {

/// Number of bytes a stored checksum occupies.
pub const CHECKSUM_SIZE: usize = 4;

/// The CRC32 (IEEE) checksum of a byte string.
pub uninterp spec fn crc32(data: Seq<u8>) -> u32;

/// Runs `crc32fast::Hasher` over `data`: a fresh hasher, one `update`, then
/// `finalize`. The result depends on the bytes alone and is the value that
/// `crc32` names.
#[verifier::external_body]
fn crc32_of(data: &[u8]) -> (sum: u32)
    ensures
        sum == crc32(data@),
{
    let mut hasher = crc32fast::Hasher::new();
    hasher.update(data);
    hasher.finalize()
}

/// The checksum of `data`.
pub fn calculate_checksum(data: &[u8]) -> (sum: u32)
    ensures
        sum == crc32(data@),
{
    crc32_of(data)
}

/// Holds a checksum that was computed against the one that was stored.
pub fn check_checksum(actual: u32, expected: u32) -> (r: Result<(), LsmError>)
    ensures
        actual == expected ==> r is Ok,
        actual != expected ==> r == Err::<(), LsmError>(
            LsmError::ChecksumMismatch { expected, actual },
        ),
{
    if expected == actual {
        return Ok(());
    }
    Err(LsmError::ChecksumMismatch { expected, actual })
}

/// Passes when `expected` is the checksum of `data`.
pub fn verify_checksum(data: &[u8], expected: u32) -> (r: Result<(), LsmError>)
    ensures
        crc32(data@) == expected ==> r is Ok,
        crc32(data@) != expected ==> r == Err::<(), LsmError>(
            LsmError::ChecksumMismatch { expected, actual: crc32(data@) },
        ),
{
    let actual = calculate_checksum(data);
    check_checksum(actual, expected)
}

} // verus!
