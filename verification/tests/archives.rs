use std::io::{Cursor, Read, Write};

use ndarray_npz::archive::{EntryFacts, EntryLookup, EntryMeta, Listing};
use ndarray_npz::checksum::{crc32_verify, ChecksumStatus};
use ndarray_npz::error::{ErrorKind, ViewNpzError, ZipFault};
use ndarray_npz::view::NpzView;
use ndarray_npz::view_mut::NpzViewMut;
use zip::write::SimpleFileOptions;
use zip::{CompressionMethod, ZipArchive, ZipWriter};

fn kind(e: &ViewNpzError) -> String {
    format!("{:?}", e)
}

fn stored() -> SimpleFileOptions {
    SimpleFileOptions::default()
        .with_alignment(64)
        .compression_method(CompressionMethod::Stored)
}

/// An archive with two stored members, a directory, a compressed member and a third stored
/// member that is then marked as encrypted.
fn sample_archive() -> Vec<u8> {
    let mut w = ZipWriter::new(Cursor::new(Vec::new()));
    w.start_file("a.npy", stored()).unwrap();
    w.write_all(b"first array bytes").unwrap();
    w.add_directory("dir/", SimpleFileOptions::default()).unwrap();
    w.start_file("b.npy", stored()).unwrap();
    w.write_all(&[7u8; 100]).unwrap();
    w.start_file(
        "c.npy",
        SimpleFileOptions::default().compression_method(CompressionMethod::Deflated),
    )
    .unwrap();
    w.write_all(&[1u8; 300]).unwrap();
    w.start_file("e.npy", stored()).unwrap();
    w.write_all(b"secret").unwrap();
    let mut bytes = w.finish().unwrap().into_inner();
    let at = central_header(&bytes, "e.npy");
    bytes[at + 8] |= 1;
    bytes
}

/// The offset of the central header of the entry `name`.
fn central_header(bytes: &[u8], name: &str) -> usize {
    let n = name.len();
    (0..bytes.len() - 46)
        .find(|&i| {
            bytes[i..i + 4] == [0x50, 0x4b, 0x01, 0x02]
                && u16::from_le_bytes([bytes[i + 28], bytes[i + 29]]) as usize == n
                && &bytes[i + 46..i + 46 + n] == name.as_bytes()
        })
        .unwrap()
}

fn push16(v: &mut Vec<u8>, x: u16) {
    v.extend_from_slice(&x.to_le_bytes());
}

fn push32(v: &mut Vec<u8>, x: u32) {
    v.extend_from_slice(&x.to_le_bytes());
}

/// A hand-made archive of stored members whose CRC-32 follows the data in a data descriptor.
/// `central_crc` overrides the CRC-32 stored in the central directory.
fn descriptor_archive(files: &[(&str, &[u8])], signature: bool, central_crc: Option<u32>) -> Vec<u8> {
    let mut out = Vec::new();
    let mut offsets = Vec::new();
    for (name, data) in files {
        offsets.push(out.len() as u32);
        push32(&mut out, 0x0403_4b50);
        push16(&mut out, 20);
        push16(&mut out, 0x0008);
        push16(&mut out, 0);
        push16(&mut out, 0);
        push16(&mut out, 0);
        push32(&mut out, 0);
        push32(&mut out, 0);
        push32(&mut out, 0);
        push16(&mut out, name.len() as u16);
        push16(&mut out, 0);
        out.extend_from_slice(name.as_bytes());
        out.extend_from_slice(data);
        if signature {
            push32(&mut out, 0x0807_4b50);
        }
        push32(&mut out, crc32fast::hash(data));
        push32(&mut out, data.len() as u32);
        push32(&mut out, data.len() as u32);
    }
    let cd_start = out.len();
    for ((name, data), offset) in files.iter().zip(offsets) {
        push32(&mut out, 0x0201_4b50);
        push16(&mut out, 20);
        push16(&mut out, 20);
        push16(&mut out, 0x0008);
        push16(&mut out, 0);
        push16(&mut out, 0);
        push16(&mut out, 0);
        push32(&mut out, central_crc.unwrap_or(crc32fast::hash(data)));
        push32(&mut out, data.len() as u32);
        push32(&mut out, data.len() as u32);
        push16(&mut out, name.len() as u16);
        push16(&mut out, 0);
        push16(&mut out, 0);
        push16(&mut out, 0);
        push16(&mut out, 0);
        push32(&mut out, 0);
        push32(&mut out, offset);
        out.extend_from_slice(name.as_bytes());
    }
    let cd_size = out.len() - cd_start;
    push32(&mut out, 0x0605_4b50);
    push16(&mut out, 0);
    push16(&mut out, 0);
    push16(&mut out, files.len() as u16);
    push16(&mut out, files.len() as u16);
    push32(&mut out, cd_size as u32);
    push32(&mut out, cd_start as u32);
    push16(&mut out, 0);
    out
}

fn read_member(bytes: &[u8], name: &str) -> Vec<u8> {
    let mut zip = ZipArchive::new(Cursor::new(bytes)).unwrap();
    let mut file = zip.by_name(name).unwrap();
    let mut data = Vec::new();
    file.read_to_end(&mut data).unwrap();
    data
}

#[test]
fn view_sorts_members() {
    let bytes = sample_archive();
    let npz = NpzView::new(&bytes).unwrap();
    assert_eq!(npz.len(), 2);
    assert!(!npz.is_empty());
    assert_eq!(npz.names(), &["a.npy".to_string(), "b.npy".to_string()]);
    assert_eq!(npz.directory_names(), &["dir/".to_string()]);
    assert_eq!(npz.compressed_names(), &["c.npy".to_string()]);
    assert_eq!(npz.encrypted_names(), &["e.npy".to_string()]);
}

#[test]
fn view_by_name_and_index() {
    let bytes = sample_archive();
    let npz = NpzView::new(&bytes).unwrap();
    let a = npz.by_name("a.npy").unwrap();
    assert_eq!(a.data(), b"first array bytes");
    assert_eq!(a.status(), ChecksumStatus::Unverified);
    let b = npz.by_index(1).unwrap();
    assert_eq!(b.data(), &[7u8; 100][..]);
    assert_eq!(npz.by_index(0).unwrap().data(), a.data());
    assert!(matches!(npz.by_name("dir/"), Err(ViewNpzError::Directory)));
    assert!(matches!(npz.by_name("c.npy"), Err(ViewNpzError::CompressedFile)));
    assert!(matches!(npz.by_name("e.npy"), Err(ViewNpzError::EncryptedFile)));
    assert!(matches!(npz.by_name("x.npy"), Err(ViewNpzError::Zip(ZipFault::FileNotFound, None))));
    assert!(matches!(npz.by_index(2), Err(ViewNpzError::Zip(ZipFault::FileNotFound, None))));
}

#[test]
fn view_verify() {
    let mut bytes = sample_archive();
    {
        let npz = NpzView::new(&bytes).unwrap();
        let mut a = npz.by_name("a.npy").unwrap();
        assert_eq!(a.verify().unwrap(), crc32fast::hash(b"first array bytes"));
        assert_eq!(a.status(), ChecksumStatus::Correct);
    }
    let at = bytes.windows(5).position(|w| w == b"first").unwrap();
    bytes[at] = b'F';
    let npz = NpzView::new(&bytes).unwrap();
    let mut a = npz.by_name("a.npy").unwrap();
    let err = a.verify().unwrap_err();
    assert!(matches!(err, ViewNpzError::Zip(ZipFault::InvalidChecksum, None)), "{}", kind(&err));
    assert_eq!(a.status(), ChecksumStatus::Outdated);
}

#[test]
fn view_clone_keeps_members() {
    let bytes = sample_archive();
    let npz = NpzView::new(&bytes).unwrap();
    let copy = npz.clone();
    assert_eq!(copy.names(), npz.names());
    assert_eq!(copy.by_index(1).unwrap().data(), npz.by_index(1).unwrap().data());
}

#[test]
fn view_rejects_garbage() {
    let bytes = vec![0u8; 64];
    assert!(matches!(NpzView::new(&bytes), Err(ViewNpzError::Zip(ZipFault::Archive, Some(_)))));
    let mut buf = vec![0u8; 64];
    assert!(matches!(NpzViewMut::new(&mut buf), Err(ViewNpzError::Zip(ZipFault::Archive, Some(_)))));
}

#[test]
fn view_unreadable_entry_fails() {
    let mut bytes = sample_archive();
    let at = central_header(&bytes, "b.npy");
    bytes[at + 10] = 99;
    bytes[at + 11] = 0;
    assert!(matches!(NpzView::new(&bytes), Err(ViewNpzError::Zip(ZipFault::Archive, Some(_)))));
    assert!(matches!(NpzViewMut::new(&mut bytes), Err(ViewNpzError::Zip(ZipFault::Archive, Some(_)))));
}

#[test]
fn view_mut_sorts_members() {
    let mut bytes = sample_archive();
    let npz = NpzViewMut::new(&mut bytes).unwrap();
    assert_eq!(npz.len(), 2);
    assert_eq!(npz.names(), &["a.npy".to_string(), "b.npy".to_string()]);
    assert_eq!(npz.directory_names(), &["dir/".to_string()]);
    assert_eq!(npz.compressed_names(), &["c.npy".to_string()]);
    assert_eq!(npz.encrypted_names(), &["e.npy".to_string()]);
}

#[test]
fn view_mut_moves_out_once() {
    let mut bytes = sample_archive();
    let mut npz = NpzViewMut::new(&mut bytes).unwrap();
    let a = npz.by_name("a.npy").unwrap();
    assert_eq!(a.data(), b"first array bytes");
    assert!(matches!(npz.by_name("a.npy"), Err(ViewNpzError::MovedNpyViewMut)));
    assert!(matches!(npz.by_index(0), Err(ViewNpzError::MovedNpyViewMut)));
    let b = npz.by_index(1).unwrap();
    assert_eq!(b.data(), &[7u8; 100][..]);
    assert!(matches!(npz.by_index(2), Err(ViewNpzError::Zip(ZipFault::FileNotFound, None))));
    assert!(matches!(npz.by_name("dir/"), Err(ViewNpzError::Directory)));
    assert!(matches!(npz.by_name("c.npy"), Err(ViewNpzError::CompressedFile)));
    assert!(matches!(npz.by_name("e.npy"), Err(ViewNpzError::EncryptedFile)));
    assert!(matches!(npz.by_name("x.npy"), Err(ViewNpzError::Zip(ZipFault::FileNotFound, None))));
}

#[test]
fn view_mut_update_then_verify() {
    let mut bytes = sample_archive();
    {
        let mut npz = NpzViewMut::new(&mut bytes).unwrap();
        let mut a = npz.by_name("a.npy").unwrap();
        let mut b = npz.by_name("b.npy").unwrap();
        assert_eq!(a.verify().unwrap(), crc32fast::hash(b"first array bytes"));
        a.data_mut()[0] = b'F';
        b.data_mut()[0] = 9;
        assert_eq!(a.status(), ChecksumStatus::Outdated);
        assert!(a.verify().is_err());
        let crc = a.update();
        assert_eq!(crc, crc32fast::hash(b"First array bytes"));
        assert_eq!(a.status(), ChecksumStatus::Correct);
        assert_eq!(a.verify().unwrap(), crc);
        b.settle();
        assert_eq!(b.status(), ChecksumStatus::Correct);
    }
    assert_eq!(read_member(&bytes, "a.npy"), b"First array bytes");
    let mut expected = vec![7u8; 100];
    expected[0] = 9;
    assert_eq!(read_member(&bytes, "b.npy"), expected);
}

#[test]
fn views_agree_on_members() {
    let b = sample_archive();
    let mut c = b.clone();
    let base_b = b.as_ptr() as usize;
    let base_c = c.as_ptr() as usize;
    let view = NpzView::new(&b).unwrap();
    let mut view_mut = NpzViewMut::new(&mut c).unwrap();
    assert_eq!(view.len(), 2);
    assert_eq!(view_mut.len(), 2);
    assert_eq!(view.names(), view_mut.names());
    for k in 0..view.len() {
        let f = view.by_index(k).unwrap();
        let g = view_mut.by_index(k).unwrap();
        assert_eq!(f.data(), g.data());
        assert_eq!(f.data().as_ptr() as usize - base_b, g.data().as_ptr() as usize - base_c);
    }
}

#[test]
fn fresh_view_sees_settled_checksum() {
    let mut bytes = sample_archive();
    {
        let mut npz = NpzViewMut::new(&mut bytes).unwrap();
        let mut a = npz.by_name("a.npy").unwrap();
        a.data_mut()[0] = b'F';
        a.settle();
    }
    let view = NpzView::new(&bytes).unwrap();
    let mut a = view.by_name("a.npy").unwrap();
    assert_eq!(a.data(), b"First array bytes");
    assert_eq!(a.verify().unwrap(), crc32fast::hash(b"First array bytes"));
}

#[test]
fn writes_through_one_member_leave_the_other() {
    let mut bytes = sample_archive();
    let mut npz = NpzViewMut::new(&mut bytes).unwrap();
    let mut a = npz.by_index(0).unwrap();
    let mut b = npz.by_index(1).unwrap();
    assert_eq!(b.verify().unwrap(), crc32fast::hash(&[7u8; 100]));
    a.data_mut()[0] = b'F';
    a.update();
    assert_eq!(b.data(), &[7u8; 100][..]);
    assert_eq!(b.status(), ChecksumStatus::Correct);
    assert_eq!(b.verify().unwrap(), crc32fast::hash(&[7u8; 100]));
    assert_eq!(npz.len(), 2);
    assert_eq!(npz.names(), &["a.npy".to_string(), "b.npy".to_string()]);
}

#[test]
fn correct_status_means_matching_checksum() {
    let mut bytes = sample_archive();
    let mut npz = NpzViewMut::new(&mut bytes).unwrap();
    let mut a = npz.by_name("a.npy").unwrap();
    assert_eq!(a.status(), ChecksumStatus::Unverified);
    let c = a.verify().unwrap();
    assert_eq!(a.status(), ChecksumStatus::Correct);
    assert_eq!(c, crc32fast::hash(a.data()));
    a.data_mut()[1] = b'X';
    assert_eq!(a.status(), ChecksumStatus::Outdated);
    assert!(a.verify().is_err());
    assert_eq!(a.status(), ChecksumStatus::Outdated);
}

#[test]
fn view_mut_settle_leaves_unchanged_views() {
    let mut bytes = sample_archive();
    let before = bytes.clone();
    {
        let mut npz = NpzViewMut::new(&mut bytes).unwrap();
        let mut a = npz.by_index(0).unwrap();
        a.settle();
        assert_eq!(a.status(), ChecksumStatus::Unverified);
    }
    assert_eq!(bytes, before);
}

#[test]
fn data_descriptor_without_signature() {
    let files: [(&str, &[u8]); 2] = [("x.npy", b"descriptor data"), ("y.npy", b"more")];
    let mut bytes = descriptor_archive(&files, false, None);
    {
        let mut npz = NpzViewMut::new(&mut bytes).unwrap();
        let mut x = npz.by_name("x.npy").unwrap();
        assert_eq!(x.data(), b"descriptor data");
        assert_eq!(x.verify().unwrap(), crc32fast::hash(b"descriptor data"));
        x.data_mut()[0] = b'D';
        x.update();
    }
    assert_eq!(read_member(&bytes, "x.npy"), b"Descriptor data");
    let local = bytes.windows(15).position(|w| w == b"Descriptor data").unwrap() + 15;
    assert_eq!(bytes[local..local + 4], crc32fast::hash(b"Descriptor data").to_le_bytes());
}

#[test]
fn data_descriptor_with_signature() {
    let files: [(&str, &[u8]); 1] = [("x.npy", b"signed descriptor")];
    let mut bytes = descriptor_archive(&files, true, None);
    {
        let mut npz = NpzViewMut::new(&mut bytes).unwrap();
        let mut x = npz.by_index(0).unwrap();
        x.data_mut()[0] = b'S';
        x.update();
    }
    let local = bytes.windows(17).position(|w| w == b"Signed descriptor").unwrap() + 17;
    assert_eq!(bytes[local..local + 4], 0x0807_4b50u32.to_le_bytes());
    assert_eq!(bytes[local + 4..local + 8], crc32fast::hash(b"Signed descriptor").to_le_bytes());
    assert_eq!(read_member(&bytes, "x.npy"), b"Signed descriptor");
}

#[test]
fn data_descriptor_ambiguous_crc() {
    let files: [(&str, &[u8]); 1] = [("x.npy", b"ambiguous")];
    let mut bytes = descriptor_archive(&files, true, Some(0x0807_4b50));
    let err = NpzViewMut::new(&mut bytes).err().unwrap();
    assert!(matches!(err, ViewNpzError::Zip(ZipFault::AmbiguousCrc32, None)), "{}", kind(&err));
}

#[test]
fn shared_local_header_is_ambiguous() {
    let mut bytes = descriptor_archive(&[("x.npy", b"shared"), ("y.npy", b"shared")], false, None);
    // Point the second central header at the first local header.
    let at = central_header(&bytes, "y.npy");
    bytes[at + 42..at + 46].copy_from_slice(&0u32.to_le_bytes());
    let err = NpzViewMut::new(&mut bytes).err().unwrap();
    assert!(matches!(err, ViewNpzError::Zip(ZipFault::AmbiguousOffsets, None)), "{}", kind(&err));
    // The immutable view does not mind.
    let npz = NpzView::new(&bytes).unwrap();
    assert_eq!(npz.by_index(0).unwrap().data(), npz.by_index(1).unwrap().data());
}

#[test]
fn try_new_detects_crc_beyond_buffer() {
    let files: [(&str, &[u8]); 1] = [("x.npy", b"short")];
    let mut bytes = descriptor_archive(&files, false, None);
    // Claim a size that puts the data descriptor beyond the end of the buffer.
    let at = central_header(&bytes, "x.npy");
    bytes[at + 24..at + 28].copy_from_slice(&10_000u32.to_le_bytes());
    assert!(NpzViewMut::try_new(&mut bytes).is_none());
    let mut good = descriptor_archive(&files, false, None);
    assert!(matches!(NpzViewMut::try_new(&mut good), Some(Ok(_))));
}

fn synthetic(facts: &[EntryFacts]) -> Listing {
    let names: Vec<String> = (0..facts.len()).map(|i| format!("f{}.npy", i)).collect();
    let lookups = facts
        .iter()
        .zip(names.iter())
        .map(|(f, n)| EntryLookup::Opened(EntryMeta { name: n.clone(), facts: *f }))
        .collect();
    Listing { names, lookups }
}

fn facts(data_start: u64, size: u64, header_start: u64, central_header_start: u64) -> EntryFacts {
    EntryFacts { is_dir: false, stored: true, data_start, size, header_start, central_header_start }
}

fn mut_error(listing: Listing) -> ViewNpzError {
    let mut buf = vec![0u8; 100];
    NpzViewMut::from_listing(&mut buf, listing).err().unwrap()
}

#[test]
fn layout_overlapping_ranges() {
    let err = mut_error(synthetic(&[facts(10, 20, 0, 50)]));
    assert!(matches!(err, ViewNpzError::Zip(ZipFault::OverlappingRanges, None)), "{}", kind(&err));
}

#[test]
fn layout_offset_exceeds_eof() {
    let err = mut_error(synthetic(&[facts(200, 0, 0, 50)]));
    assert!(matches!(err, ViewNpzError::Zip(ZipFault::OffsetExceedsEof, None)), "{}", kind(&err));
}

#[test]
fn layout_length_exceeds_eof() {
    let err = mut_error(synthetic(&[facts(80, 30, 0, 50)]));
    assert!(matches!(err, ViewNpzError::Zip(ZipFault::LengthExceedsEof, None)), "{}", kind(&err));
}

#[test]
fn layout_range_overflow() {
    let err = mut_error(synthetic(&[facts(u64::MAX, 1, 0, 50)]));
    assert!(matches!(err, ViewNpzError::Zip(ZipFault::RangeOverflow, None)), "{}", kind(&err));
    let buf = vec![0u8; 100];
    let err = NpzView::from_listing(&buf, synthetic(&[facts(u64::MAX, 1, 0, 50)])).err().unwrap();
    assert!(matches!(err, ViewNpzError::Zip(ZipFault::RangeOverflow, None)), "{}", kind(&err));
}

#[test]
fn layout_range_exceeds_eof_for_immutable_view() {
    let buf = vec![0u8; 100];
    let err = NpzView::from_listing(&buf, synthetic(&[facts(80, 30, 0, 50)])).err().unwrap();
    assert!(matches!(err, ViewNpzError::Zip(ZipFault::RangeExceedsEof, None)), "{}", kind(&err));
}

#[test]
fn layout_two_members() {
    let mut buf: Vec<u8> = (0..200u8).collect();
    let listing = synthetic(&[facts(20, 10, 0, 50), facts(40, 4, 30, 60)]);
    let mut npz = NpzViewMut::from_listing(&mut buf, listing).unwrap();
    let f0 = npz.by_index(0).unwrap();
    let f1 = npz.by_index(1).unwrap();
    assert_eq!(f0.data(), &(20..30u8).collect::<Vec<_>>()[..]);
    assert_eq!(f1.data(), &(40..44u8).collect::<Vec<_>>()[..]);
}

#[test]
fn mutable_view_writes_through_to_buffer() {
    let mut buf: Vec<u8> = (0..200u8).collect();
    let before = buf.clone();
    let crc;
    {
        let listing = synthetic(&[facts(20, 10, 0, 50), facts(40, 4, 30, 60)]);
        let mut npz = NpzViewMut::from_listing(&mut buf, listing).unwrap();
        let mut f0 = npz.by_index(0).unwrap();
        f0.data_mut()[0] = 0xAA;
        crc = f0.update();
        assert_eq!(f0.verify().unwrap(), crc);
    }
    // Member 0 keeps its data at 20..30, its CRC-32 in a data descriptor at 30..34 (bit 3 of
    // the flags at 58 is set) and its central CRC-32 at 66..70.
    let mut expected = before.clone();
    expected[20] = 0xAA;
    expected[30..34].copy_from_slice(&crc.to_le_bytes());
    expected[66..70].copy_from_slice(&crc.to_le_bytes());
    assert_eq!(buf, expected);
    let mut data = before[20..30].to_vec();
    data[0] = 0xAA;
    assert_eq!(crc, crc32fast::hash(&data));
}

#[test]
fn untouched_mutable_views_leave_buffer() {
    let mut buf: Vec<u8> = (0..200u8).collect();
    let before = buf.clone();
    {
        let listing = synthetic(&[facts(20, 10, 0, 50), facts(40, 4, 30, 60)]);
        let mut npz = NpzViewMut::from_listing(&mut buf, listing).unwrap();
        let mut f1 = npz.by_index(1).unwrap();
        assert!(f1.verify().is_err());
    }
    assert_eq!(buf, before);
}

#[test]
fn failed_mutable_view_leaves_buffer() {
    let mut bytes = [0u8; 4];
    assert!(matches!(NpzViewMut::new(&mut bytes), Err(ViewNpzError::Zip(ZipFault::Archive, Some(_)))));
    assert_eq!(bytes, [0u8; 4]);
}

#[test]
fn listing_failure_is_reported() {
    let buf = vec![0u8; 100];
    let listing = Listing {
        names: vec!["a.npy".to_string()],
        lookups: vec![EntryLookup::Failed(zip::result::ZipError::FileNotFound)],
    };
    let err = NpzView::from_listing(&buf, listing).err().unwrap();
    assert!(matches!(err, ViewNpzError::Zip(ZipFault::Archive, Some(_))));
    assert_eq!(err_kind(&err), ErrorKind::Zip(ZipFault::Archive));
}

fn err_kind(e: &ViewNpzError) -> ErrorKind {
    match e {
        ViewNpzError::Zip(f, _) => ErrorKind::Zip(*f),
        ViewNpzError::MovedNpyViewMut => ErrorKind::MovedNpyViewMut,
        ViewNpzError::Directory => ErrorKind::Directory,
        ViewNpzError::CompressedFile => ErrorKind::CompressedFile,
        ViewNpzError::EncryptedFile => ErrorKind::EncryptedFile,
    }
}

#[test]
fn listing_of_real_archive() {
    let bytes = sample_archive();
    let listing = Listing::read(&bytes).unwrap();
    assert_eq!(listing.names, vec!["a.npy", "dir/", "b.npy", "c.npy", "e.npy"]);
    assert!(matches!(listing.lookups[4], EntryLookup::Encrypted));
    match &listing.lookups[0] {
        EntryLookup::Opened(m) => {
            assert_eq!(m.name, "a.npy");
            assert!(m.facts.stored && !m.facts.is_dir);
            assert_eq!(m.facts.size, 17);
            assert_eq!(m.facts.data_start % 64, 0);
            assert_eq!(m.facts.header_start, 0);
        }
        _ => panic!("a.npy should open"),
    }
    match &listing.lookups[1] {
        EntryLookup::Opened(m) => assert!(m.facts.is_dir),
        _ => panic!("dir/ should open"),
    }
    match &listing.lookups[3] {
        EntryLookup::Opened(m) => assert!(!m.facts.stored),
        _ => panic!("c.npy should open"),
    }
}

#[test]
fn checksum_of_check_string() {
    assert_eq!(crc32_verify(b"", &[0, 0, 0, 0]), Ok(0));
    assert_eq!(crc32_verify(b"123456789", &0xCBF4_3926u32.to_le_bytes()), Ok(0xCBF4_3926));
    assert_eq!(crc32_verify(b"123456780", &0xCBF4_3926u32.to_le_bytes()), Err(ZipFault::InvalidChecksum));
}

#[test]
fn checksum_status_default() {
    assert_eq!(ChecksumStatus::default(), ChecksumStatus::Unverified);
}

#[test]
fn mutable_and_immutable_views_agree() {
    let bytes = sample_archive();
    let mut copy = bytes.clone();
    let npz = NpzView::new(&bytes).unwrap();
    let mut npz_mut = NpzViewMut::new(&mut copy).unwrap();
    assert_eq!(npz.names(), npz_mut.names());
    assert_eq!(npz.directory_names(), npz_mut.directory_names());
    assert_eq!(npz.compressed_names(), npz_mut.compressed_names());
    assert_eq!(npz.encrypted_names(), npz_mut.encrypted_names());
    for i in 0..npz.len() {
        let view = npz.by_index(i).unwrap();
        let view_mut = npz_mut.by_index(i).unwrap();
        assert_eq!(view.data(), view_mut.data());
        assert_eq!(view.status(), view_mut.status());
    }
}

#[test]
fn verify_twice_gives_the_same() {
    let bytes = sample_archive();
    let npz = NpzView::new(&bytes).unwrap();
    let mut b = npz.by_name("b.npy").unwrap();
    let first = b.verify().unwrap();
    let second = b.verify().unwrap();
    assert_eq!(first, second);
    assert_eq!(first, crc32fast::hash(&[7u8; 100]));
    assert_eq!(b.data(), &[7u8; 100][..]);
}
