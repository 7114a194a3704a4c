//! Byte ranges inside an archive buffer and little-endian integers read from it.

use vstd::prelude::*;

use crate::error::ZipFault;

verus! {

/// A half-open range `start..end` of byte positions.
#[derive(Clone, Copy, Debug, PartialEq, Eq, Structural)]
pub struct ByteRange {
    pub start: usize,
    pub end: usize,
}

impl ByteRange {
    pub open spec fn len(self) -> int {
        self.end - self.start
    }

    /// The bytes of `bytes` that this range covers.
    pub open spec fn of(self, bytes: Seq<u8>) -> Seq<u8> {
        bytes.subrange(self.start as int, self.end as int)
    }

    /// This range lies within a buffer of `n` bytes.
    pub open spec fn within(self, n: int) -> bool {
        self.start <= self.end && self.end <= n
    }
}

/// `start..end` shifted by `index`, where both ends fit in a `usize`.
pub open spec fn spec_range_at(index: u64, start: u64, end: u64) -> Option<ByteRange> {
    if index + start <= usize::MAX && index + end <= usize::MAX {
        Some(ByteRange { start: (index + start) as usize, end: (index + end) as usize })
    } else {
        None
    }
}

/// The bytes `index + start .. index + end` of `bytes`, or the reason why there are none.
pub open spec fn spec_slice_at(bytes: Seq<u8>, index: u64, start: u64, end: u64) -> Result<Seq<u8>, ZipFault> {
    match spec_range_at(index, start, end) {
        None => Err(ZipFault::RangeOverflow),
        Some(r) => if r.within(bytes.len() as int) {
            Ok(r.of(bytes))
        } else {
            Err(ZipFault::RangeExceedsEof)
        },
    }
}

/// The unsigned integer whose little-endian bytes are `b[0]`, `b[1]`.
pub open spec fn le_u16(b: Seq<u8>) -> u16 {
    (b[0] as int + b[1] as int * 0x100) as u16
}

/// The unsigned integer whose little-endian bytes are `b[0]` to `b[3]`.
pub open spec fn le_u32(b: Seq<u8>) -> u32 {
    (b[0] as int + b[1] as int * 0x100 + b[2] as int * 0x1_0000 + b[3] as int * 0x100_0000) as u32
}

/// The four little-endian bytes of `x`.
pub open spec fn u32_le_bytes(x: u32) -> Seq<u8> {
    seq![
        (x % 0x100) as u8,
        ((x / 0x100) % 0x100) as u8,
        ((x / 0x1_0000) % 0x100) as u8,
        (x / 0x100_0000) as u8,
    ]
}

/// Reading back the little-endian bytes of a `u32` gives the same `u32`.
pub proof fn lemma_le_u32_roundtrip(x: u32)
    ensures
        u32_le_bytes(x).len() == 4,
        le_u32(u32_le_bytes(x)) == x,
{
    let b = u32_le_bytes(x);
    assert(b[0] == x % 0x100);
    assert(b[1] == (x / 0x100) % 0x100);
    assert(b[2] == (x / 0x1_0000) % 0x100);
    assert(b[3] == x / 0x100_0000);
    assert(x == x % 0x100 + ((x / 0x100) % 0x100) * 0x100 + ((x / 0x1_0000) % 0x100) * 0x1_0000
        + (x / 0x100_0000) * 0x100_0000) by (nonlinear_arith);
}

/// The range `index + range.start .. index + range.end`, failing where an end overflows a `usize`.
pub fn range_at(index: u64, start: u64, end: u64) -> (res: Result<ByteRange, ZipFault>)
    ensures
        match spec_range_at(index, start, end) {
            Some(r) => res == Ok::<ByteRange, ZipFault>(r),
            None => res == Err::<ByteRange, ZipFault>(ZipFault::RangeOverflow),
        },
{
    let max: u64 = usize::MAX as u64;
    if index > max || start > max - index || end > max - index {
        return Err(ZipFault::RangeOverflow);
    }
    let i = index as usize;
    let s = start as usize;
    let e = end as usize;
    Ok(ByteRange { start: s + i, end: e + i })
}

/// The bytes `index + start .. index + end` of `bytes`.
pub fn slice_at<'a>(bytes: &'a [u8], index: u64, start: u64, end: u64) -> (res: Result<&'a [u8], ZipFault>)
    ensures
        match spec_slice_at(bytes@, index, start, end) {
            Ok(s) => res matches Ok(r) && r@ == s,
            Err(f) => res == Err::<&[u8], ZipFault>(f),
        },
{
    let r = range_at(index, start, end)?;
    if r.start <= r.end && r.end <= bytes.len() {
        Ok(&bytes[r.start..r.end])
    } else {
        Err(ZipFault::RangeExceedsEof)
    }
}

/// The little-endian `u16` stored at `range`, a range of two bytes within `bytes`.
pub fn u16_at(bytes: &[u8], range: ByteRange) -> (res: u16)
    requires
        range.within(bytes@.len() as int),
        range.len() == 2,
    ensures
        res == le_u16(range.of(bytes@)),
{
    let lo = bytes[range.start] as u16;
    let hi = bytes[range.start + 1] as u16;
    lo + hi * 0x100
}

/// The little-endian `u32` stored at `range`, a range of four bytes within `bytes`.
pub fn u32_at(bytes: &[u8], range: ByteRange) -> (res: u32)
    requires
        range.within(bytes@.len() as int),
        range.len() == 4,
    ensures
        res == le_u32(range.of(bytes@)),
{
    let b0 = bytes[range.start] as u32;
    let b1 = bytes[range.start + 1] as u32;
    let b2 = bytes[range.start + 2] as u32;
    let b3 = bytes[range.start + 3] as u32;
    b0 + b1 * 0x100 + b2 * 0x1_0000 + b3 * 0x100_0000
}

/// The four little-endian bytes of `x`.
pub fn u32_to_le_bytes(x: u32) -> (res: [u8; 4])
    ensures
        res@ == u32_le_bytes(x),
{
    [(x % 0x100) as u8, ((x / 0x100) % 0x100) as u8, ((x / 0x1_0000) % 0x100) as u8, (x / 0x100_0000) as u8]
}

} // verus!
