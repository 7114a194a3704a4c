//! CRC-32 checksums of `.npy` members and their verification status.

use vstd::prelude::*;

use crate::bytes::{le_u32, u32_at, ByteRange};
use crate::error::ZipFault;

verus! {

/// Checksum status of an [`NpyView`](crate::view::NpyView) or
/// [`NpyViewMut`](crate::view_mut::NpyViewMut).
#[derive(Clone, Copy, Debug, PartialEq, Eq, Structural)]
pub enum ChecksumStatus {
    /// The checksum has not been computed and the data has not changed.
    Unverified,
    /// The checksum is correct and the data has not changed.
    Correct,
    /// The data may have changed.
    Outdated,
}

impl Default for ChecksumStatus {
    fn default() -> (s: Self)
        ensures
            s == ChecksumStatus::Unverified,
    {
        ChecksumStatus::Unverified
    }
}

/// One shift of the reflected CRC-32 register: the IEEE polynomial `0xEDB88320` is folded in
/// where the bit shifted out is set.
pub open spec fn crc32_shift(c: u32) -> u32 {
    if c & 1u32 == 1u32 {
        (c >> 1u32) ^ 0xEDB8_8320u32
    } else {
        c >> 1u32
    }
}

/// The register after `k` shifts.
pub open spec fn crc32_shifts(c: u32, k: nat) -> u32
    decreases k,
{
    if k == 0 {
        c
    } else {
        crc32_shift(crc32_shifts(c, (k - 1) as nat))
    }
}

/// The CRC-32 register after feeding `data` a byte at a time, starting from all ones.
pub open spec fn crc32_register(data: Seq<u8>) -> u32
    decreases data.len(),
{
    if data.len() == 0 {
        0xFFFF_FFFFu32
    } else {
        crc32_shifts(crc32_register(data.drop_last()) ^ (data.last() as u32), 8)
    }
}

/// The CRC-32 (IEEE) checksum of `data`: the final register, inverted.
pub open spec fn crc32_ieee(data: Seq<u8>) -> u32 {
    !crc32_register(data)
}

/// Computes the CRC-32 checksum of `bytes` with a fresh `crc32fast::Hasher`:
/// `Hasher::new`, one `Hasher::update` with all of `bytes`, then `Hasher::finalize`.
/// Trusted: the result is the CRC-32 (IEEE) checksum of the bytes, the reflected
/// polynomial `0xEDB88320` with all-ones start and final inversion, as `crc32fast` computes
/// it.
#[verifier::external_body]
pub(crate) fn crc32_update(bytes: &[u8]) -> (crc: u32)
    ensures
        crc == crc32_ieee(bytes@),
{
    let mut hasher = crc32fast::Hasher::new();
    hasher.update(bytes);
    hasher.finalize()
}

/// Verifies `bytes` against the little-endian checksum `crc32` (four bytes) and returns it.
pub fn crc32_verify(bytes: &[u8], crc32: &[u8]) -> (res: Result<u32, ZipFault>)
    requires
        crc32@.len() == 4,
    ensures
        crc32_ieee(bytes@) == le_u32(crc32@) ==> res == Ok::<u32, ZipFault>(le_u32(crc32@)),
        crc32_ieee(bytes@) != le_u32(crc32@) ==> res == Err::<u32, ZipFault>(ZipFault::InvalidChecksum),
{
    let expected = u32_at(crc32, ByteRange { start: 0, end: 4 });
    assert(crc32@.subrange(0, 4) =~= crc32@);
    if crc32_update(bytes) == expected {
        Ok(expected)
    } else {
        Err(ZipFault::InvalidChecksum)
    }
}

} // verus!
