//! The entries of a zip archive as the `zip` crate reports them.

use vstd::prelude::*;

use std::io::Cursor;
use zip::result::ZipError;
use zip::{CompressionMethod, ZipArchive};

use crate::error::{ErrorKind, ViewNpzError, ZipFault};

verus! {

#[verifier::external_type_specification]
#[verifier::external_body]
#[verifier::reject_recursive_types(T)]
pub struct ExCursor<T>(Cursor<T>);

#[verifier::external_type_specification]
#[verifier::external_body]
#[verifier::reject_recursive_types(R)]
pub struct ExZipArchive<R>(ZipArchive<R>);

/// What the zip crate reports of an entry that it could open.
#[derive(Clone, Copy, Debug, PartialEq, Eq, Structural)]
pub struct EntryFacts {
    /// The name ends in a path separator.
    pub is_dir: bool,
    /// The entry is stored without compression.
    pub stored: bool,
    /// Offset of the entry's data.
    pub data_start: u64,
    /// Uncompressed size of the entry's data.
    pub size: u64,
    /// Offset of the entry's local header.
    pub header_start: u64,
    /// Offset of the entry's header in the central directory.
    pub central_header_start: u64,
}

/// An entry that the zip crate could open: its name and what it reports of it.
#[derive(Debug)]
pub struct EntryMeta {
    pub name: String,
    pub facts: EntryFacts,
}

/// What opening one entry of an archive gave.
#[derive(Debug)]
pub enum EntryLookup {
    /// The entry needs a password.
    Encrypted,
    /// The zip crate failed to open the entry.
    Failed(ZipError),
    /// The entry was opened.
    Opened(EntryMeta),
}

/// What opening one entry gives, without the zip crate's error and the name.
#[derive(Clone, Copy, Debug, PartialEq, Eq, Structural)]
pub enum EntryOutcome {
    Encrypted,
    Unreadable,
    Readable(EntryFacts),
}

impl View for EntryLookup {
    type V = EntryOutcome;

    open spec fn view(&self) -> EntryOutcome {
        match self {
            EntryLookup::Encrypted => EntryOutcome::Encrypted,
            EntryLookup::Failed(_) => EntryOutcome::Unreadable,
            EntryLookup::Opened(m) => EntryOutcome::Readable(m.facts),
        }
    }
}

/// The entries of the central directory of an archive, in order: each entry's name and what
/// opening it with `ZipArchive::by_index` gives.
pub uninterp spec fn zip_directory(bytes: Seq<u8>) -> Option<Seq<(Seq<char>, EntryOutcome)>>;

/// The entries that an opened archive holds, in order.
pub uninterp spec fn archive_entries(archive: ZipArchive<Cursor<&[u8]>>) -> Seq<(Seq<char>, EntryOutcome)>;

/// No two entries share a name.
pub open spec fn names_distinct(entries: Seq<(Seq<char>, EntryOutcome)>) -> bool {
    forall|i: int, j: int| 0 <= i < entries.len() && 0 <= j < entries.len() && i != j
        ==> #[trigger] entries[i].0 != #[trigger] entries[j].0
}

/// The central header (46 bytes at least) of every entry that could be opened lies within `n` bytes.
pub open spec fn central_headers_within(entries: Seq<(Seq<char>, EntryOutcome)>, n: int) -> bool {
    forall|i: int| 0 <= i < entries.len() ==> match #[trigger] entries[i].1 {
        EntryOutcome::Readable(f) => f.central_header_start + 46 <= n,
        _ => true,
    }
}

/// Reads the central directory of `bytes` with `ZipArchive::new` over a `Cursor`.
/// Trusted: it succeeds exactly where the named directory of the bytes exists, and then holds
/// its entries; as the zip crate keys entries by name, the names are distinct; and each
/// opened entry's central header was read from within the bytes.
#[verifier::external_body]
fn open_archive<'a>(bytes: &'a [u8]) -> (res: Result<ZipArchive<Cursor<&'a [u8]>>, ZipError>)
    ensures
        res is Ok <==> zip_directory(bytes@) is Some,
        res matches Ok(a) ==> archive_entries(a) == zip_directory(bytes@).unwrap(),
        res matches Ok(a) ==> names_distinct(archive_entries(a)),
        res matches Ok(a) ==> central_headers_within(archive_entries(a), bytes@.len() as int),
{
    ZipArchive::new(Cursor::new(bytes))
}

/// The number of entries, by `ZipArchive::len`.
#[verifier::external_body]
fn archive_len(archive: &ZipArchive<Cursor<&[u8]>>) -> (n: usize)
    ensures
        n == archive_entries(*archive).len(),
{
    archive.len()
}

/// The names of all entries in order, by `ZipArchive::file_names`.
#[verifier::external_body]
fn archive_file_names(archive: &ZipArchive<Cursor<&[u8]>>) -> (names: Vec<String>)
    ensures
        names@.len() == archive_entries(*archive).len(),
        forall|i: int| 0 <= i < names@.len() ==> #[trigger] names@[i]@ == archive_entries(*archive)[i].0,
{
    archive.file_names().map(String::from).collect()
}

/// Opens the entry at `index` with `ZipArchive::by_index` and reports its name and layout,
/// telling a missing password apart from other failures.
#[verifier::external_body]
fn archive_by_index(archive: &mut ZipArchive<Cursor<&[u8]>>, index: usize) -> (res: EntryLookup)
    requires
        index < archive_entries(*old(archive)).len(),
    ensures
        archive_entries(*final(archive)) == archive_entries(*old(archive)),
        res@ == archive_entries(*old(archive))[index as int].1,
        res matches EntryLookup::Opened(m) ==> m.name@ == archive_entries(*old(archive))[index as int].0,
{
    match archive.by_index(index) {
        Err(ZipError::UnsupportedArchive(ZipError::PASSWORD_REQUIRED)) => EntryLookup::Encrypted,
        Err(err) => EntryLookup::Failed(err),
        Ok(file) => EntryLookup::Opened(EntryMeta {
            name: file.name().to_string(),
            facts: EntryFacts {
                is_dir: file.is_dir(),
                stored: file.compression() == CompressionMethod::Stored,
                data_start: file.data_start(),
                size: file.size(),
                header_start: file.header_start(),
                central_header_start: file.central_header_start(),
            },
        }),
    }
}

/// The entries of an archive: their names and what opening each one gave.
pub struct Listing {
    pub names: Vec<String>,
    pub lookups: Vec<EntryLookup>,
}

impl View for Listing {
    type V = Seq<(Seq<char>, EntryOutcome)>;

    open spec fn view(&self) -> Seq<(Seq<char>, EntryOutcome)> {
        Seq::new(self.names@.len(), |i: int| (self.names@[i]@, self.lookups@[i]@))
    }
}

impl Listing {
    /// Names and lookups pair up, an opened entry has the name that it is listed under,
    /// and no two entries share a name.
    pub open spec fn wf(&self) -> bool {
        &&& self.names@.len() == self.lookups@.len()
        &&& forall|i: int| 0 <= i < self.lookups@.len() ==> match #[trigger] self.lookups@[i] {
            EntryLookup::Opened(m) => m.name@ == self.names@[i]@,
            _ => true,
        }
        &&& names_distinct(self@)
    }

    /// Reads the central directory of `bytes` and opens each of its entries in order.
    pub fn read(bytes: &[u8]) -> (res: Result<Listing, ViewNpzError>)
        ensures
            zip_directory(bytes@) is None ==> (res matches Err(e) && e matches ViewNpzError::Zip(ZipFault::Archive, Some(_))),
            res matches Err(e) ==> e matches ViewNpzError::Zip(ZipFault::Archive, Some(_)),
            zip_directory(bytes@) matches Some(entries) ==> (res matches Ok(l) && l.wf() && l@ == entries),
            res matches Ok(l) ==> central_headers_within(l@, bytes@.len() as int),
    {
        let mut archive = match open_archive(bytes) {
            Ok(a) => a,
            Err(err) => return Err(ViewNpzError::archive(err)),
        };
        let ghost entries = archive_entries(archive);
        let names = archive_file_names(&archive);
        let n = archive_len(&archive);
        let mut lookups: Vec<EntryLookup> = Vec::new();
        let mut i: usize = 0;
        while i < n
            invariant
                n == entries.len(),
                archive_entries(archive) == entries,
                i <= n,
                lookups@.len() == i,
                forall|j: int| 0 <= j < i ==> (#[trigger] lookups@[j])@ == entries[j].1,
                forall|j: int| 0 <= j < i ==> match #[trigger] lookups@[j] {
                    EntryLookup::Opened(m) => m.name@ == entries[j].0,
                    _ => true,
                },
            decreases n - i,
        {
            let lookup = archive_by_index(&mut archive, i);
            lookups.push(lookup);
            i += 1;
        }
        let listing = Listing { names, lookups };
        assert(listing@ =~= entries);
        Ok(listing)
    }
}

} // verus!
