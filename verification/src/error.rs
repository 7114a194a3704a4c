//! Errors of viewing `.npz` archives.

use vstd::prelude::*;

use zip::result::ZipError;

verus! {

#[verifier::external_type_specification]
#[verifier::external_body]
pub struct ExZipError(ZipError);

/// Why reading the zip structure of an archive failed.
#[derive(Clone, Copy, Debug, PartialEq, Eq, Structural)]
pub enum ZipFault {
    /// The zip crate itself refused the archive or an entry of it.
    Archive,
    /// No entry by that name or index.
    FileNotFound,
    /// An offset plus a length overflows a `usize`.
    RangeOverflow,
    /// A range reaches beyond the end of the buffer.
    RangeExceedsEof,
    /// Two regions of the archive overlap.
    OverlappingRanges,
    /// A region starts beyond the end of the buffer.
    OffsetExceedsEof,
    /// A region ends beyond the end of the buffer.
    LengthExceedsEof,
    /// Two regions start at the same offset.
    AmbiguousOffsets,
    /// The CRC-32 in a data descriptor cannot be told from its optional signature.
    AmbiguousCrc32,
    /// The data does not match the stored CRC-32 checksum.
    InvalidChecksum,
}

/// An error viewing a `.npz` file.
#[derive(Debug)]
pub enum ViewNpzError {
    /// An error of the zip structure, carrying the zip crate's own error where it raised one.
    Zip(ZipFault, Option<ZipError>),
    /// A mutable `.npy` file view has already been moved out of its `.npz` file view.
    MovedNpyViewMut,
    /// Directories cannot be viewed.
    Directory,
    /// Compressed files cannot be viewed.
    CompressedFile,
    /// Encrypted files cannot be viewed.
    EncryptedFile,
}

/// What kind of error a [`ViewNpzError`] is, without the zip crate's payload.
#[derive(Clone, Copy, Debug, PartialEq, Eq, Structural)]
pub enum ErrorKind {
    Zip(ZipFault),
    MovedNpyViewMut,
    Directory,
    CompressedFile,
    EncryptedFile,
}

impl View for ViewNpzError {
    type V = ErrorKind;

    open spec fn view(&self) -> ErrorKind {
        match self {
            ViewNpzError::Zip(f, _) => ErrorKind::Zip(*f),
            ViewNpzError::MovedNpyViewMut => ErrorKind::MovedNpyViewMut,
            ViewNpzError::Directory => ErrorKind::Directory,
            ViewNpzError::CompressedFile => ErrorKind::CompressedFile,
            ViewNpzError::EncryptedFile => ErrorKind::EncryptedFile,
        }
    }
}

impl ViewNpzError {
    /// The error for a fault that the library itself detected.
    pub fn fault(f: ZipFault) -> (e: ViewNpzError)
        ensures
            e@ == ErrorKind::Zip(f),
            e matches ViewNpzError::Zip(_, None),
    {
        ViewNpzError::Zip(f, None)
    }

    /// The error for a failure that the zip crate reported.
    pub fn archive(err: ZipError) -> (e: ViewNpzError)
        ensures
            e@ == ErrorKind::Zip(ZipFault::Archive),
            e == ViewNpzError::Zip(ZipFault::Archive, Some(err)),
    {
        ViewNpzError::Zip(ZipFault::Archive, Some(err))
    }
}

} // verus!
