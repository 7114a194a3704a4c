//! Immutable views of the uncompressed `.npy` members of an `.npz` archive.

use vstd::prelude::*;

use crate::archive::{names_distinct, EntryFacts, EntryLookup, EntryOutcome, Listing, zip_directory};
use crate::bytes::{le_u32, slice_at, spec_slice_at};
use crate::checksum::{crc32_ieee, crc32_verify, ChecksumStatus};
use crate::error::{ErrorKind, ViewNpzError, ZipFault};
use crate::strings::{find_first, lemma_remove_value_contains, remove_first, strings};

verus! {

/// What an [`NpyView`] shows: the member's bytes, its CRC-32 as the central directory
/// stores it (four bytes, little endian), and the checksum status.
pub struct NpyModel {
    pub data: Seq<u8>,
    pub central_crc32: Seq<u8>,
    pub status: ChecksumStatus,
}

impl NpyModel {
    /// The checksum of the data equals the one stored in the central directory.
    pub open spec fn checksum_matches(self) -> bool {
        crc32_ieee(self.data) == le_u32(self.central_crc32)
    }

    /// A view whose status is `Correct` holds data that matches its central checksum.
    pub open spec fn status_holds(self) -> bool {
        self.status == ChecksumStatus::Correct ==> self.checksum_matches()
    }

    pub open spec fn with_status(self, status: ChecksumStatus) -> NpyModel {
        NpyModel { data: self.data, central_crc32: self.central_crc32, status }
    }

    /// The view after verifying its checksum.
    pub open spec fn after_verify(self) -> NpyModel {
        self.with_status(if self.checksum_matches() { ChecksumStatus::Correct } else { ChecksumStatus::Outdated })
    }

    /// What verifying the checksum returns.
    pub open spec fn verify_result(self) -> Result<u32, ErrorKind> {
        if self.checksum_matches() {
            Ok(le_u32(self.central_crc32))
        } else {
            Err(ErrorKind::Zip(ZipFault::InvalidChecksum))
        }
    }
}

/// Immutable view of memory-mapped `.npy` files within an `.npz` file.
///
/// Does **not** automatically [verify](`Self::verify`) the CRC-32 checksum.
#[derive(Clone, Copy, Debug)]
pub struct NpyView<'a> {
    data: &'a [u8],
    central_crc32: &'a [u8],
    status: ChecksumStatus,
}

impl<'a> View for NpyView<'a> {
    type V = NpyModel;

    closed spec fn view(&self) -> NpyModel {
        NpyModel { data: self.data@, central_crc32: self.central_crc32@, status: self.status }
    }
}

impl<'a> NpyView<'a> {
    #[verifier::type_invariant]
    spec fn inv(self) -> bool {
        &&& self.central_crc32@.len() == 4
        &&& self.status == ChecksumStatus::Correct ==> crc32_ieee(self.data@) == le_u32(self.central_crc32@)
    }

    /// CRC-32 checksum status: `Correct` only while the data matches the central checksum.
    pub fn status(&self) -> (s: ChecksumStatus)
        ensures
            s == self@.status,
            self@.status_holds(),
    {
        proof { use_type_invariant(self); }
        self.status
    }

    /// The bytes of the `.npy` file.
    pub fn data(&self) -> (d: &'a [u8])
        ensures
            d@ == self@.data,
    {
        self.data
    }

    /// Verifies and returns the CRC-32 checksum by reading the whole array.
    ///
    /// Changes the checksum status to `Outdated` if invalid or to `Correct` if valid.
    /// Fails with [`ZipFault::InvalidChecksum`] if the checksum is invalid.
    pub fn verify(&mut self) -> (res: Result<u32, ViewNpzError>)
        ensures
            final(self)@ == old(self)@.after_verify(),
            match old(self)@.verify_result() {
                Ok(c) => res matches Ok(r) && r == c,
                Err(k) => res matches Err(e) && e@ == k,
            },
    {
        proof { use_type_invariant(&*self); }
        self.status = ChecksumStatus::Outdated;
        let crc32 = match crc32_verify(self.data, self.central_crc32) {
            Ok(c) => c,
            Err(f) => return Err(ViewNpzError::fault(f)),
        };
        self.status = ChecksumStatus::Correct;
        Ok(crc32)
    }
}

/// What an [`NpzView`] shows: the names of its viewable members and their views in
/// index order, and the names of its directories, compressed and encrypted members.
pub struct NpzModel {
    pub names: Seq<Seq<char>>,
    pub files: Seq<NpyModel>,
    pub directory_names: Seq<Seq<char>>,
    pub compressed_names: Seq<Seq<char>>,
    pub encrypted_names: Seq<Seq<char>>,
}

impl NpzModel {
    /// Every viewable member has one view, and no two share a name.
    pub open spec fn valid(self) -> bool {
        &&& self.files.len() == self.names.len()
        &&& self.names.no_duplicates()
    }
}

/// What looking up a member by index gives.
pub open spec fn lookup_by_index(m: NpzModel, index: int) -> Result<NpyModel, ErrorKind> {
    if 0 <= index < m.files.len() {
        Ok(m.files[index])
    } else {
        Err(ErrorKind::Zip(ZipFault::FileNotFound))
    }
}

/// The view before any entry has been looked at: every entry counts as encrypted.
pub open spec fn view_start(entries: Seq<(Seq<char>, EntryOutcome)>) -> NpzModel {
    NpzModel {
        names: Seq::empty(),
        files: Seq::empty(),
        directory_names: Seq::empty(),
        compressed_names: Seq::empty(),
        encrypted_names: entries.map_values(|e: (Seq<char>, EntryOutcome)| e.0),
    }
}

/// The view after looking at one more entry.
pub open spec fn view_step(bytes: Seq<u8>, m: NpzModel, entry: (Seq<char>, EntryOutcome)) -> Result<NpzModel, ErrorKind> {
    match entry.1 {
        EntryOutcome::Encrypted => Ok(m),
        EntryOutcome::Unreadable => Err(ErrorKind::Zip(ZipFault::Archive)),
        EntryOutcome::Readable(f) => {
            let encrypted = m.encrypted_names.remove_value(entry.0);
            if f.is_dir {
                Ok(NpzModel {
                    names: m.names,
                    files: m.files,
                    directory_names: m.directory_names.push(entry.0),
                    compressed_names: m.compressed_names,
                    encrypted_names: encrypted,
                })
            } else if !f.stored {
                Ok(NpzModel {
                    names: m.names,
                    files: m.files,
                    directory_names: m.directory_names,
                    compressed_names: m.compressed_names.push(entry.0),
                    encrypted_names: encrypted,
                })
            } else {
                match spec_slice_at(bytes, f.data_start, 0, f.size) {
                    Err(k) => Err(ErrorKind::Zip(k)),
                    Ok(data) => match spec_slice_at(bytes, f.central_header_start, 16, 20) {
                        Err(k) => Err(ErrorKind::Zip(k)),
                        Ok(crc) => Ok(NpzModel {
                            names: m.names.push(entry.0),
                            files: m.files.push(NpyModel { data, central_crc32: crc, status: ChecksumStatus::Unverified }),
                            directory_names: m.directory_names,
                            compressed_names: m.compressed_names,
                            encrypted_names: encrypted,
                        }),
                    },
                }
            }
        },
    }
}

/// The view after looking at the first `n` entries in order, or the first error.
pub open spec fn view_scan(bytes: Seq<u8>, entries: Seq<(Seq<char>, EntryOutcome)>, n: nat) -> Result<NpzModel, ErrorKind>
    decreases n,
{
    if n == 0 {
        Ok(view_start(entries))
    } else {
        match view_scan(bytes, entries, (n - 1) as nat) {
            Err(k) => Err(k),
            Ok(m) => view_step(bytes, m, entries[n - 1]),
        }
    }
}

/// Once looking at the entries has failed, looking at more entries fails the same way.
pub proof fn lemma_view_scan_error_persists(bytes: Seq<u8>, entries: Seq<(Seq<char>, EntryOutcome)>, i: nat, n: nat)
    requires
        i <= n,
        view_scan(bytes, entries, i) is Err,
    ensures
        view_scan(bytes, entries, n) == view_scan(bytes, entries, i),
    decreases n - i,
{
    if i < n {
        lemma_view_scan_error_persists(bytes, entries, i, (n - 1) as nat);
    }
}

/// What viewing the archive `bytes` with the entries `entries` gives.
pub open spec fn view_of(bytes: Seq<u8>, entries: Seq<(Seq<char>, EntryOutcome)>) -> Result<NpzModel, ErrorKind> {
    view_scan(bytes, entries, entries.len())
}

/// What looking up a member by name gives.
pub open spec fn lookup_by_name(m: NpzModel, name: Seq<char>) -> Result<NpyModel, ErrorKind> {
    match m.names.index_of_first(name) {
        Some(i) => Ok(m.files[i]),
        None => if m.directory_names.contains(name) {
            Err(ErrorKind::Directory)
        } else if m.compressed_names.contains(name) {
            Err(ErrorKind::CompressedFile)
        } else if m.encrypted_names.contains(name) {
            Err(ErrorKind::EncryptedFile)
        } else {
            Err(ErrorKind::Zip(ZipFault::FileNotFound))
        },
    }
}

/// Immutable view for memory-mapped `.npz` files.
///
/// Provides an [`NpyView`] for each uncompressed and unencrypted `.npy` file within
/// the archive, by name or by index among those files.
#[derive(Debug)]
pub struct NpzView<'a> {
    files: Vec<NpyView<'a>>,
    names: Vec<String>,
    directory_names: Vec<String>,
    compressed_names: Vec<String>,
    encrypted_names: Vec<String>,
}

spec fn model_of<'a>(
    files: Seq<NpyView<'a>>,
    names: Seq<String>,
    directory_names: Seq<String>,
    compressed_names: Seq<String>,
    encrypted_names: Seq<String>,
) -> NpzModel {
    NpzModel {
        names: strings(names),
        files: files.map_values(|f: NpyView<'a>| f@),
        directory_names: strings(directory_names),
        compressed_names: strings(compressed_names),
        encrypted_names: strings(encrypted_names),
    }
}

impl<'a> View for NpzView<'a> {
    type V = NpzModel;

    closed spec fn view(&self) -> NpzModel {
        model_of(self.files@, self.names@, self.directory_names@, self.compressed_names@, self.encrypted_names@)
    }
}

impl<'a> Clone for NpzView<'a> {
    fn clone(&self) -> (c: Self)
        ensures
            c@ == self@,
    {
        proof { use_type_invariant(self); }
        let files = self.files.clone();
        let names = self.names.clone();
        let directory_names = self.directory_names.clone();
        let compressed_names = self.compressed_names.clone();
        let encrypted_names = self.encrypted_names.clone();
        assert(files@ =~= self.files@);
        assert(names@ =~= self.names@);
        assert(directory_names@ =~= self.directory_names@);
        assert(compressed_names@ =~= self.compressed_names@);
        assert(encrypted_names@ =~= self.encrypted_names@);
        NpzView { files, names, directory_names, compressed_names, encrypted_names }
    }
}

impl<'a> NpzView<'a> {
    #[verifier::type_invariant]
    spec fn inv(self) -> bool {
        &&& self.files@.len() == self.names@.len()
        &&& strings(self.names@).no_duplicates()
    }

    /// Creates a new immutable view of a memory-mapped `.npz` file.
    ///
    /// Fails with the zip crate's error where it cannot read the archive or one of its
    /// unencrypted entries, and where a member's data or central header lies beyond the buffer.
    pub fn new(bytes: &'a [u8]) -> (res: Result<Self, ViewNpzError>)
        ensures
            zip_directory(bytes@) is None ==> (res matches Err(e) && e matches ViewNpzError::Zip(ZipFault::Archive, Some(_))),
            res matches Err(e) ==> (e@ == ErrorKind::Zip(ZipFault::Archive) ==> e matches ViewNpzError::Zip(ZipFault::Archive, Some(_))),
            zip_directory(bytes@) matches Some(entries) ==> match view_of(bytes@, entries) {
                Ok(m) => res matches Ok(v) && v@ == m,
                Err(k) => res matches Err(e) && e@ == k,
            },
    {
        let listing = Listing::read(bytes)?;
        Self::from_listing(bytes, listing)
    }

    /// Builds the view of the archive `bytes` from the entries that the zip crate listed.
    pub fn from_listing(bytes: &'a [u8], listing: Listing) -> (res: Result<Self, ViewNpzError>)
        requires
            listing.wf(),
        ensures
            match view_of(bytes@, listing@) {
                Ok(m) => res matches Ok(v) && v@ == m,
                Err(k) => res matches Err(e) && e@ == k,
            },
            res matches Err(e) ==> (e@ == ErrorKind::Zip(ZipFault::Archive) ==> e matches ViewNpzError::Zip(ZipFault::Archive, Some(_))),
    {
        let ghost entries = listing@;
        let Listing { names: all_names, lookups: mut lookups } = listing;
        let n = lookups.len();
        let mut files: Vec<NpyView<'a>> = Vec::new();
        let mut names: Vec<String> = Vec::new();
        let mut directory_names: Vec<String> = Vec::new();
        let mut compressed_names: Vec<String> = Vec::new();
        let mut encrypted_names: Vec<String> = all_names;
        assert(model_of(files@, names@, directory_names@, compressed_names@, encrypted_names@) == view_start(entries)) by {
            assert(strings(encrypted_names@) =~= entries.map_values(|e: (Seq<char>, EntryOutcome)| e.0));
            assert(strings(names@) =~= Seq::empty());
            assert(files@.map_values(|f: NpyView<'a>| f@) =~= Seq::empty());
            assert(strings(directory_names@) =~= Seq::empty());
            assert(strings(compressed_names@) =~= Seq::empty());
        }
        let mut i: usize = 0;
        while i < n
            invariant
                entries == listing@,
                n == lookups@.len(),
                n == entries.len(),
                i <= n,
                forall|j: int| 0 <= j < n ==> (#[trigger] lookups@[j])@ == entries[j].1,
                forall|j: int| 0 <= j < n ==> match #[trigger] lookups@[j] {
                    EntryLookup::Opened(m) => m.name@ == entries[j].0,
                    _ => true,
                },
                crate::archive::names_distinct(entries),
                view_scan(bytes@, entries, i as nat) == Ok::<NpzModel, ErrorKind>(
                    model_of(files@, names@, directory_names@, compressed_names@, encrypted_names@)),
                files@.len() == names@.len(),
                strings(names@).no_duplicates(),
                forall|j: int| 0 <= j < names@.len() ==>
                    exists|k: int| 0 <= k < i && entries[k].0 == #[trigger] strings(names@)[j],
            decreases n - i,
        {
            let failed = match &lookups[i] {
                EntryLookup::Failed(_) => true,
                _ => false,
            };
            if failed {
                match lookups.swap_remove(i) {
                    EntryLookup::Failed(err) => {
                        proof {
                            assert(view_scan(bytes@, entries, (i + 1) as nat) == Err::<NpzModel, ErrorKind>(ErrorKind::Zip(ZipFault::Archive)));
                            lemma_view_scan_error_persists(bytes@, entries, (i + 1) as nat, n as nat);
                        }
                        return Err(ViewNpzError::archive(err));
                    },
                    _ => return Err(ViewNpzError::fault(ZipFault::Archive)),
                }
            }
            let ghost prev = model_of(files@, names@, directory_names@, compressed_names@, encrypted_names@);
            match &lookups[i] {
                EntryLookup::Opened(meta) => {
                    let name = meta.name.clone();
                    let facts = meta.facts;
                    remove_first(&mut encrypted_names, &name);
                    if facts.is_dir {
                        directory_names.push(name);
                        assert(strings(directory_names@) =~= prev.directory_names.push(name@));
                    } else if !facts.stored {
                        compressed_names.push(name);
                        assert(strings(compressed_names@) =~= prev.compressed_names.push(name@));
                    } else {
                        let data = match slice_at(bytes, facts.data_start, 0, facts.size) {
                            Ok(d) => d,
                            Err(f) => {
                                proof {
                                    assert(view_scan(bytes@, entries, (i + 1) as nat) == view_step(bytes@, prev, entries[i as int]));
                                    lemma_view_scan_error_persists(bytes@, entries, (i + 1) as nat, n as nat);
                                }
                                return Err(ViewNpzError::fault(f));
                            },
                        };
                        let central_crc32 = match slice_at(bytes, facts.central_header_start, 16, 20) {
                            Ok(c) => c,
                            Err(f) => {
                                proof {
                                    assert(view_scan(bytes@, entries, (i + 1) as nat) == view_step(bytes@, prev, entries[i as int]));
                                    lemma_view_scan_error_persists(bytes@, entries, (i + 1) as nat, n as nat);
                                }
                                return Err(ViewNpzError::fault(f));
                            },
                        };
                        let file = NpyView { data, central_crc32, status: ChecksumStatus::Unverified };
                        proof {
                            assert forall|j: int| 0 <= j < prev.names.len() implies prev.names[j] != name@ by {
                                let k = choose|k: int| 0 <= k < i && entries[k].0 == #[trigger] strings(names@)[j];
                                assert(entries[k].0 != entries[i as int].0);
                            }
                        }
                        names.push(name);
                        files.push(file);
                        assert(strings(names@) =~= prev.names.push(name@));
                        assert(files@.map_values(|f: NpyView<'a>| f@) =~= prev.files.push(file@));
                    }
                },
                _ => {},
            }
            proof {
                let cur = model_of(files@, names@, directory_names@, compressed_names@, encrypted_names@);
                assert(view_scan(bytes@, entries, (i + 1) as nat) == view_step(bytes@, prev, entries[i as int]));
                assert forall|j: int| 0 <= j < names@.len() implies
                    exists|k: int| 0 <= k < i + 1 && entries[k].0 == #[trigger] strings(names@)[j] by {
                    if j < prev.names.len() {
                        let k = choose|k: int| 0 <= k < i && entries[k].0 == #[trigger] prev.names[j];
                        assert(entries[k].0 == strings(names@)[j]);
                    } else {
                        assert(entries[i as int].0 == strings(names@)[j]);
                    }
                }
            }
            i += 1;
        }
        Ok(NpzView { files, names, directory_names, compressed_names, encrypted_names })
    }

    /// Returns `true` iff the `.npz` file doesn't contain any viewable arrays.
    pub fn is_empty(&self) -> (b: bool)
        ensures
            b == (self@.names.len() == 0),
    {
        self.names.len() == 0
    }

    /// Returns the number of viewable arrays in the `.npz` file.
    pub fn len(&self) -> (n: usize)
        ensures
            n == self@.names.len(),
            self@.valid(),
    {
        proof { use_type_invariant(self); }
        self.names.len()
    }

    /// Returns the names of all of the viewable arrays, in index order.
    pub fn names(&self) -> (r: &[String])
        ensures
            strings(r@) == self@.names,
    {
        self.names.as_slice()
    }

    /// Returns the names of all of the directories in the `.npz` file.
    pub fn directory_names(&self) -> (r: &[String])
        ensures
            strings(r@) == self@.directory_names,
    {
        self.directory_names.as_slice()
    }

    /// Returns the names of all of the compressed files in the `.npz` file.
    pub fn compressed_names(&self) -> (r: &[String])
        ensures
            strings(r@) == self@.compressed_names,
    {
        self.compressed_names.as_slice()
    }

    /// Returns the names of all of the encrypted files in the `.npz` file.
    pub fn encrypted_names(&self) -> (r: &[String])
        ensures
            strings(r@) == self@.encrypted_names,
    {
        self.encrypted_names.as_slice()
    }

    /// Returns an immutable `.npy` file view by name.
    ///
    /// Trying to view a directory, compressed file, or encrypted file fails with
    /// [`ViewNpzError::Directory`], [`ViewNpzError::CompressedFile`], or
    /// [`ViewNpzError::EncryptedFile`]. Fails with [`ZipFault::FileNotFound`] if the `name`
    /// is not found.
    pub fn by_name(&self, name: &str) -> (res: Result<NpyView<'a>, ViewNpzError>)
        ensures
            match lookup_by_name(self@, name@) {
                Ok(f) => res matches Ok(v) && v@ == f,
                Err(k) => res matches Err(e) && e@ == k,
            },
    {
        proof { use_type_invariant(self); }
        let key = name.to_owned();
        match find_first(&self.names, &key) {
            Some(index) => self.by_index(index),
            None => {
                if find_first(&self.directory_names, &key).is_some() {
                    Err(ViewNpzError::Directory)
                } else if find_first(&self.compressed_names, &key).is_some() {
                    Err(ViewNpzError::CompressedFile)
                } else if find_first(&self.encrypted_names, &key).is_some() {
                    Err(ViewNpzError::EncryptedFile)
                } else {
                    Err(ViewNpzError::fault(ZipFault::FileNotFound))
                }
            },
        }
    }

    /// Returns an immutable `.npy` file view by index in `0..len()`.
    ///
    /// The index does not necessarily correspond to the index of the zip archive as
    /// directories, compressed files, and encrypted files are skipped. Fails with
    /// [`ZipFault::FileNotFound`] if the `index` is not found.
    pub fn by_index(&self, index: usize) -> (res: Result<NpyView<'a>, ViewNpzError>)
        ensures
            match lookup_by_index(self@, index as int) {
                Ok(f) => res matches Ok(v) && v@ == f,
                Err(k) => res matches Err(e) && e@ == k,
            },
    {
        if index < self.files.len() {
            Ok(self.files[index])
        } else {
            Err(ViewNpzError::fault(ZipFault::FileNotFound))
        }
    }
}

// ---------------------------------------------------------------------------------------
// Laws.

/// Verifying reads the data whatever the status: it succeeds with the stored central
/// checksum and marks the view `Correct` exactly when the CRC-32 of the data equals that
/// checksum, and otherwise fails as an invalid checksum and marks the view `Outdated`; the
/// status before plays no part.
pub proof fn law_verify_reads_data(m: NpyModel, s: ChecksumStatus)
    ensures
        crc32_ieee(m.data) == le_u32(m.central_crc32) ==> {
            &&& m.verify_result() == Ok::<u32, ErrorKind>(le_u32(m.central_crc32))
            &&& m.after_verify().status == ChecksumStatus::Correct
        },
        crc32_ieee(m.data) != le_u32(m.central_crc32) ==> {
            &&& m.verify_result() == Err::<u32, ErrorKind>(ErrorKind::Zip(ZipFault::InvalidChecksum))
            &&& m.after_verify().status == ChecksumStatus::Outdated
        },
        m.with_status(s).verify_result() == m.verify_result(),
        m.with_status(s).after_verify() == m.after_verify(),
        m.after_verify().data == m.data,
        m.after_verify().central_crc32 == m.central_crc32,
{
}

/// Verifying twice gives what verifying once gives, and verifying leaves the bytes alone.
pub proof fn law_verify_idempotent(m: NpyModel)
    ensures
        m.after_verify().verify_result() == m.verify_result(),
        m.after_verify().after_verify() == m.after_verify(),
        m.after_verify().data == m.data,
        m.after_verify().central_crc32 == m.central_crc32,
{
}

/// In a valid view, looking a member up by its name gives the member at its index; an index
/// past the members is not found.
pub proof fn law_by_name_is_by_index(m: NpzModel, i: int)
    requires
        m.valid(),
        0 <= i < m.names.len(),
    ensures
        lookup_by_name(m, m.names[i]) == lookup_by_index(m, i),
        lookup_by_index(m, m.names.len() as int) == Err::<NpyModel, ErrorKind>(ErrorKind::Zip(ZipFault::FileNotFound)),
{
    m.names.index_of_first_ensures(m.names[i]);
    let j = m.names.index_of_first(m.names[i]).unwrap();
    assert(j == i) by {
        if j != i {
            assert(m.names[j] == m.names[i]);
        }
    }
}

/// Where an entry ends up among the four lists of names: a name needing a password among
/// the encrypted names, a directory among the directory names, a compressed entry among the
/// compressed names, and a stored one among the viewable names, each in no other list.
pub open spec fn placed_in(
    names: Seq<Seq<char>>,
    directory_names: Seq<Seq<char>>,
    compressed_names: Seq<Seq<char>>,
    encrypted_names: Seq<Seq<char>>,
    entry: (Seq<char>, EntryOutcome),
) -> bool {
    match entry.1 {
        EntryOutcome::Encrypted => {
            &&& encrypted_names.contains(entry.0)
            &&& !names.contains(entry.0)
            &&& !directory_names.contains(entry.0)
            &&& !compressed_names.contains(entry.0)
        },
        EntryOutcome::Unreadable => false,
        EntryOutcome::Readable(f) => {
            &&& !encrypted_names.contains(entry.0)
            &&& directory_names.contains(entry.0) == f.is_dir
            &&& compressed_names.contains(entry.0) == (!f.is_dir && !f.stored)
            &&& names.contains(entry.0) == (!f.is_dir && f.stored)
        },
    }
}

/// Where an entry ends up in a view.
pub open spec fn placed(m: NpzModel, entry: (Seq<char>, EntryOutcome)) -> bool {
    placed_in(m.names, m.directory_names, m.compressed_names, m.encrypted_names, entry)
}

/// An entry not looked at yet counts as encrypted only.
spec fn pending(m: NpzModel, name: Seq<char>) -> bool {
    &&& m.encrypted_names.contains(name)
    &&& !m.names.contains(name)
    &&& !m.directory_names.contains(name)
    &&& !m.compressed_names.contains(name)
}

/// Every name in the lists of `m` is the name of an entry.
spec fn only_entry_names(m: NpzModel, entries: Seq<(Seq<char>, EntryOutcome)>) -> bool {
    &&& forall|x: Seq<char>| #[trigger] m.names.contains(x) ==> exists|k: int| 0 <= k < entries.len() && entries[k].0 == x
    &&& forall|x: Seq<char>| #[trigger] m.directory_names.contains(x) ==> exists|k: int| 0 <= k < entries.len() && entries[k].0 == x
    &&& forall|x: Seq<char>| #[trigger] m.compressed_names.contains(x) ==> exists|k: int| 0 <= k < entries.len() && entries[k].0 == x
    &&& forall|x: Seq<char>| #[trigger] m.encrypted_names.contains(x) ==> exists|k: int| 0 <= k < entries.len() && entries[k].0 == x
}

proof fn lemma_view_scan_places(bytes: Seq<u8>, entries: Seq<(Seq<char>, EntryOutcome)>, n: nat)
    requires
        names_distinct(entries),
        n <= entries.len(),
    ensures
        view_scan(bytes, entries, n) matches Ok(m) ==> {
            &&& forall|k: int| 0 <= k < n ==> placed(m, #[trigger] entries[k])
            &&& forall|k: int| n <= k < entries.len() ==> pending(m, (#[trigger] entries[k]).0)
            &&& m.encrypted_names.no_duplicates()
            &&& only_entry_names(m, entries)
        },
    decreases n,
{
    let names = entries.map_values(|e: (Seq<char>, EntryOutcome)| e.0);
    if n == 0 {
        let m = view_start(entries);
        assert(m.encrypted_names == names);
        assert forall|k: int| 0 <= k < entries.len() implies pending(m, (#[trigger] entries[k]).0) by {
            assert(names[k] == entries[k].0);
        }
        assert forall|a: int, b: int| 0 <= a < names.len() && 0 <= b < names.len() && a != b implies names[a] != names[b] by {
            assert(names[a] == entries[a].0 && names[b] == entries[b].0);
        }
        assert forall|x: Seq<char>| #[trigger] m.encrypted_names.contains(x) implies
            exists|k: int| 0 <= k < entries.len() && entries[k].0 == x by {
            let k = choose|k: int| 0 <= k < names.len() && names[k] == x;
            assert(entries[k].0 == x);
        }
    } else {
        lemma_view_scan_places(bytes, entries, (n - 1) as nat);
        if let Ok(prev) = view_scan(bytes, entries, (n - 1) as nat) {
            if let Ok(m) = view_scan(bytes, entries, n) {
                let e = entries[n - 1];
                assert(view_step(bytes, prev, e) == Ok::<NpzModel, ErrorKind>(m));
                assert(pending(prev, e.0));
                match e.1 {
                    EntryOutcome::Encrypted => {
                        assert(m == prev);
                    },
                    EntryOutcome::Unreadable => {},
                    EntryOutcome::Readable(f) => {
                        assert forall|y: Seq<char>| #[trigger] m.encrypted_names.contains(y) <==> (prev.encrypted_names.contains(y) && y != e.0) by {
                            lemma_remove_value_contains(prev.encrypted_names, e.0, y);
                        }
                        lemma_remove_value_contains(prev.encrypted_names, e.0, e.0);
                        assert forall|y: Seq<char>| y != e.0 implies
                            (#[trigger] m.names.contains(y) == prev.names.contains(y)
                            && m.directory_names.contains(y) == prev.directory_names.contains(y)
                            && m.compressed_names.contains(y) == prev.compressed_names.contains(y)) by {
                            if m.names.contains(y) {
                                let j = choose|j: int| 0 <= j < m.names.len() && m.names[j] == y;
                                if j < prev.names.len() { assert(prev.names[j] == y); }
                            }
                            if prev.names.contains(y) {
                                let j = choose|j: int| 0 <= j < prev.names.len() && prev.names[j] == y;
                                assert(m.names[j] == y);
                            }
                            if m.directory_names.contains(y) {
                                let j = choose|j: int| 0 <= j < m.directory_names.len() && m.directory_names[j] == y;
                                if j < prev.directory_names.len() { assert(prev.directory_names[j] == y); }
                            }
                            if prev.directory_names.contains(y) {
                                let j = choose|j: int| 0 <= j < prev.directory_names.len() && prev.directory_names[j] == y;
                                assert(m.directory_names[j] == y);
                            }
                            if m.compressed_names.contains(y) {
                                let j = choose|j: int| 0 <= j < m.compressed_names.len() && m.compressed_names[j] == y;
                                if j < prev.compressed_names.len() { assert(prev.compressed_names[j] == y); }
                            }
                            if prev.compressed_names.contains(y) {
                                let j = choose|j: int| 0 <= j < prev.compressed_names.len() && prev.compressed_names[j] == y;
                                assert(m.compressed_names[j] == y);
                            }
                        }
                        if f.is_dir {
                            assert(m.directory_names[m.directory_names.len() - 1] == e.0);
                        } else if !f.stored {
                            assert(m.compressed_names[m.compressed_names.len() - 1] == e.0);
                        } else {
                            assert(m.names[m.names.len() - 1] == e.0);
                        }
                        assert forall|k: int| 0 <= k < n implies placed(m, #[trigger] entries[k]) by {
                            if k < n - 1 {
                                assert(placed(prev, entries[k]));
                                assert(entries[k].0 != e.0);
                            }
                        }
                        assert forall|k: int| n <= k < entries.len() implies pending(m, (#[trigger] entries[k]).0) by {
                            assert(pending(prev, entries[k].0));
                            assert(entries[k].0 != e.0);
                        }
                        assert forall|x: Seq<char>| #[trigger] m.names.contains(x) implies
                            exists|k: int| 0 <= k < entries.len() && entries[k].0 == x by {
                            if x != e.0 { assert(prev.names.contains(x)); } else { assert(entries[n - 1].0 == x); }
                        }
                        assert forall|x: Seq<char>| #[trigger] m.directory_names.contains(x) implies
                            exists|k: int| 0 <= k < entries.len() && entries[k].0 == x by {
                            if x != e.0 { assert(prev.directory_names.contains(x)); } else { assert(entries[n - 1].0 == x); }
                        }
                        assert forall|x: Seq<char>| #[trigger] m.compressed_names.contains(x) implies
                            exists|k: int| 0 <= k < entries.len() && entries[k].0 == x by {
                            if x != e.0 { assert(prev.compressed_names.contains(x)); } else { assert(entries[n - 1].0 == x); }
                        }
                        assert forall|x: Seq<char>| #[trigger] m.encrypted_names.contains(x) implies
                            exists|k: int| 0 <= k < entries.len() && entries[k].0 == x by {
                            assert(prev.encrypted_names.contains(x));
                        }
                    },
                }
            }
        }
    }
}

/// Every entry of a viewed archive ends up in exactly the list that its kind calls for, and
/// the lists hold nothing else: viewable arrays are neither directories, nor compressed,
/// nor encrypted.
pub proof fn law_view_classifies(bytes: Seq<u8>, entries: Seq<(Seq<char>, EntryOutcome)>)
    requires
        names_distinct(entries),
        view_of(bytes, entries) is Ok,
    ensures
        view_of(bytes, entries) matches Ok(m) && {
            &&& forall|k: int| 0 <= k < entries.len() ==> placed(m, #[trigger] entries[k])
            &&& forall|x: Seq<char>| #[trigger] m.names.contains(x) ==> exists|k: int| 0 <= k < entries.len() && entries[k].0 == x
            &&& forall|x: Seq<char>| #[trigger] m.directory_names.contains(x) ==> exists|k: int| 0 <= k < entries.len() && entries[k].0 == x
            &&& forall|x: Seq<char>| #[trigger] m.compressed_names.contains(x) ==> exists|k: int| 0 <= k < entries.len() && entries[k].0 == x
            &&& forall|x: Seq<char>| #[trigger] m.encrypted_names.contains(x) ==> exists|k: int| 0 <= k < entries.len() && entries[k].0 == x
        },
{
    lemma_view_scan_places(bytes, entries, entries.len());
}

/// The names of the viewable entries (stored files), in archive order.
pub open spec fn viewable_names(entries: Seq<(Seq<char>, EntryOutcome)>) -> Seq<Seq<char>>
    decreases entries.len(),
{
    if entries.len() == 0 {
        Seq::empty()
    } else {
        let rest = viewable_names(entries.drop_last());
        match entries.last().1 {
            EntryOutcome::Readable(f) => if !f.is_dir && f.stored {
                rest.push(entries.last().0)
            } else {
                rest
            },
            _ => rest,
        }
    }
}

/// The facts of the viewable entries (stored files), in archive order.
pub open spec fn viewable_facts(entries: Seq<(Seq<char>, EntryOutcome)>) -> Seq<EntryFacts>
    decreases entries.len(),
{
    if entries.len() == 0 {
        Seq::empty()
    } else {
        let rest = viewable_facts(entries.drop_last());
        match entries.last().1 {
            EntryOutcome::Readable(f) => if !f.is_dir && f.stored {
                rest.push(f)
            } else {
                rest
            },
            _ => rest,
        }
    }
}

/// The member at index `i` of a view shows the data and central CRC-32 bytes of the entry `f`.
pub open spec fn shows_entry(bytes: Seq<u8>, file: NpyModel, f: EntryFacts) -> bool {
    &&& spec_slice_at(bytes, f.data_start, 0, f.size) == Ok::<Seq<u8>, ZipFault>(file.data)
    &&& spec_slice_at(bytes, f.central_header_start, 16, 20) == Ok::<Seq<u8>, ZipFault>(file.central_crc32)
}

proof fn lemma_view_scan_order(bytes: Seq<u8>, entries: Seq<(Seq<char>, EntryOutcome)>, n: nat)
    requires
        n <= entries.len(),
    ensures
        view_scan(bytes, entries, n) matches Ok(m) ==> {
            &&& m.names == viewable_names(entries.take(n as int))
            &&& forall|i: int| 0 <= i < m.files.len() ==> (#[trigger] m.files[i]).status == ChecksumStatus::Unverified
            &&& m.files.len() == m.names.len()
            &&& m.files.len() == viewable_facts(entries.take(n as int)).len()
            &&& forall|i: int| 0 <= i < m.files.len() ==>
                shows_entry(bytes, #[trigger] m.files[i], viewable_facts(entries.take(n as int))[i])
        },
    decreases n,
{
    if n == 0 {
        assert(entries.take(0) =~= Seq::<(Seq<char>, EntryOutcome)>::empty());
    } else {
        lemma_view_scan_order(bytes, entries, (n - 1) as nat);
        assert(entries.take(n as int).drop_last() =~= entries.take(n - 1));
        assert(entries.take(n as int).last() == entries[n - 1]);
        if let Ok(prev) = view_scan(bytes, entries, (n - 1) as nat) {
            if let Ok(m) = view_scan(bytes, entries, n) {
                let vf = viewable_facts(entries.take(n as int));
                let pf = viewable_facts(entries.take(n - 1));
                assert(view_step(bytes, prev, entries[n - 1]) == Ok::<NpzModel, ErrorKind>(m));
                assert forall|i: int| 0 <= i < m.files.len() implies {
                    &&& (#[trigger] m.files[i]).status == ChecksumStatus::Unverified
                    &&& shows_entry(bytes, m.files[i], vf[i])
                } by {
                    if i < prev.files.len() {
                        assert(m.files[i] == prev.files[i]);
                        assert(vf[i] == pf[i]);
                    }
                }
            }
        }
    }
}

/// The viewable names of an archive are its stored files in archive order, their index is
/// their position among them, and no view has had its checksum verified yet.
pub proof fn law_view_names_in_order(bytes: Seq<u8>, entries: Seq<(Seq<char>, EntryOutcome)>)
    requires
        view_of(bytes, entries) is Ok,
    ensures
        view_of(bytes, entries) matches Ok(m) && {
            &&& m.names == viewable_names(entries)
            &&& m.files.len() == m.names.len()
            &&& forall|i: int| 0 <= i < m.files.len() ==> (#[trigger] m.files[i]).status == ChecksumStatus::Unverified
        },
{
    lemma_view_scan_order(bytes, entries, entries.len());
    assert(entries.take(entries.len() as int) =~= entries);
}

/// The two views list the same names of each kind and the same number of members.
pub open spec fn same_lists(a: NpzModel, b: NpzModel) -> bool {
    &&& a.names == b.names
    &&& a.directory_names == b.directory_names
    &&& a.compressed_names == b.compressed_names
    &&& a.encrypted_names == b.encrypted_names
    &&& a.files.len() == b.files.len()
}

/// Whether viewing succeeds, and which names it lists, depends on the buffer's length only.
pub proof fn lemma_view_scan_same_len(b1: Seq<u8>, b2: Seq<u8>, entries: Seq<(Seq<char>, EntryOutcome)>, n: nat)
    requires
        b1.len() == b2.len(),
        n <= entries.len(),
        view_scan(b1, entries, n) is Ok,
    ensures
        view_scan(b2, entries, n) matches Ok(m2) && same_lists(view_scan(b1, entries, n)->Ok_0, m2),
    decreases n,
{
    if n > 0 {
        lemma_view_scan_same_len(b1, b2, entries, (n - 1) as nat);
    }
}

/// Every name that `viewable_names` lists is the name of some entry.
proof fn lemma_viewable_names_from(entries: Seq<(Seq<char>, EntryOutcome)>)
    ensures
        forall|i: int| 0 <= i < viewable_names(entries).len() ==>
            exists|k: int| 0 <= k < entries.len() && entries[k].0 == #[trigger] viewable_names(entries)[i],
    decreases entries.len(),
{
    if entries.len() > 0 {
        let rest = entries.drop_last();
        lemma_viewable_names_from(rest);
        assert forall|i: int| 0 <= i < viewable_names(entries).len() implies
            exists|k: int| 0 <= k < entries.len() && entries[k].0 == #[trigger] viewable_names(entries)[i] by {
            if i < viewable_names(rest).len() {
                let k = choose|k: int| 0 <= k < rest.len() && rest[k].0 == viewable_names(rest)[i];
                assert(entries[k] == rest[k]);
            } else {
                assert(entries[entries.len() - 1].0 == viewable_names(entries)[i]);
            }
        }
    }
}

/// Where entry names are distinct, so are the viewable names.
pub proof fn lemma_viewable_names_distinct(entries: Seq<(Seq<char>, EntryOutcome)>)
    requires
        names_distinct(entries),
    ensures
        viewable_names(entries).no_duplicates(),
    decreases entries.len(),
{
    if entries.len() > 0 {
        let rest = entries.drop_last();
        assert(names_distinct(rest)) by {
            assert forall|i: int, j: int| 0 <= i < rest.len() && 0 <= j < rest.len() && i != j
                implies #[trigger] rest[i].0 != #[trigger] rest[j].0 by {
                assert(rest[i] == entries[i] && rest[j] == entries[j]);
            }
        }
        lemma_viewable_names_distinct(rest);
        lemma_viewable_names_from(rest);
        let vr = viewable_names(rest);
        let last = entries.last().0;
        assert forall|i: int| 0 <= i < vr.len() implies vr[i] != last by {
            let k = choose|k: int| 0 <= k < rest.len() && rest[k].0 == #[trigger] vr[i];
            assert(entries[k] == rest[k]);
            assert(entries[k].0 != entries[entries.len() - 1].0);
        }
    }
}

/// The member at index `k` of a view is the `k`-th stored file of the archive: it shows the
/// bytes of that entry's data and of its central CRC-32, and where entry names are distinct,
/// looking that entry's name up gives the same member.
pub proof fn law_view_members_in_order(bytes: Seq<u8>, entries: Seq<(Seq<char>, EntryOutcome)>)
    requires
        view_of(bytes, entries) is Ok,
    ensures
        view_of(bytes, entries) matches Ok(m) && {
            &&& m.files.len() == viewable_facts(entries).len()
            &&& forall|k: int| 0 <= k < m.files.len() ==> shows_entry(bytes, #[trigger] m.files[k], viewable_facts(entries)[k])
            &&& names_distinct(entries) ==> forall|k: int| 0 <= k < m.files.len() ==>
                lookup_by_name(m, viewable_names(entries)[k]) == Ok::<NpyModel, ErrorKind>(#[trigger] m.files[k])
        },
{
    lemma_view_scan_order(bytes, entries, entries.len());
    assert(entries.take(entries.len() as int) =~= entries);
    let m = view_of(bytes, entries)->Ok_0;
    if names_distinct(entries) {
        lemma_viewable_names_distinct(entries);
        assert forall|k: int| 0 <= k < m.files.len() implies
            lookup_by_name(m, viewable_names(entries)[k]) == Ok::<NpyModel, ErrorKind>(#[trigger] m.files[k]) by {
            law_by_name_is_by_index(m, k);
        }
    }
}

} // verus!
