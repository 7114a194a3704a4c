use ndarray_npz::bytes::{range_at, slice_at, u16_at, u32_at, u32_to_le_bytes, ByteRange};
use ndarray_npz::error::ZipFault;

#[test]
fn range_at_shifts() {
    assert_eq!(range_at(100, 16, 20), Ok(ByteRange { start: 116, end: 120 }));
    assert_eq!(range_at(0, 0, 0), Ok(ByteRange { start: 0, end: 0 }));
}

#[test]
fn range_at_overflow() {
    assert_eq!(range_at(u64::MAX, 0, 4), Err(ZipFault::RangeOverflow));
    assert_eq!(range_at(usize::MAX as u64 - 3, 0, 4), Err(ZipFault::RangeOverflow));
    assert_eq!(range_at(usize::MAX as u64 - 4, 0, 4), Ok(ByteRange { start: usize::MAX - 4, end: usize::MAX }));
}

#[test]
fn slice_at_bounds() {
    let bytes: Vec<u8> = (0..10).collect();
    assert_eq!(slice_at(&bytes, 2, 1, 4), Ok(&bytes[3..6]));
    assert_eq!(slice_at(&bytes, 8, 0, 2), Ok(&bytes[8..10]));
    assert_eq!(slice_at(&bytes, 8, 0, 3), Err(ZipFault::RangeExceedsEof));
    assert_eq!(slice_at(&bytes, u64::MAX, 0, 1), Err(ZipFault::RangeOverflow));
}

#[test]
fn little_endian_integers() {
    let bytes = [0x78u8, 0x56, 0x34, 0x12, 0xff];
    assert_eq!(u16_at(&bytes, ByteRange { start: 0, end: 2 }), 0x5678);
    assert_eq!(u32_at(&bytes, ByteRange { start: 0, end: 4 }), 0x1234_5678);
    assert_eq!(u32_at(&bytes, ByteRange { start: 1, end: 5 }), 0xff12_3456);
    assert_eq!(u32_to_le_bytes(0x1234_5678), [0x78, 0x56, 0x34, 0x12]);
    assert_eq!(u32_to_le_bytes(0xCBF4_3926), 0xCBF4_3926u32.to_le_bytes());
}
