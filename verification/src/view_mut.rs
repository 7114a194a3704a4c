//! Mutable views of the uncompressed `.npy` members of an `.npz` archive.

use vstd::prelude::*;

use crate::archive::{zip_directory, central_headers_within, Listing};
use crate::bytes::{le_u32, u32_le_bytes, u32_to_le_bytes, lemma_le_u32_roundtrip, ByteRange};
use crate::checksum::{crc32_ieee, crc32_update, crc32_verify, ChecksumStatus};
use crate::error::{ErrorKind, ViewNpzError, ZipFault};
use crate::layout::{cuttable, lemma_cuttable_to_last, lemma_spliced_extend, lemma_spliced_push, spliced, layout_of, plan_layout, slot_within, slots_apart, slots_ok, Layout, LayoutOutcome, Slots, Stage};
use crate::strings::{find_first, strings};

verus! {

/// What an [`NpyViewMut`] shows: the member's bytes, its CRC-32 as the local header (or
/// data descriptor) and as the central directory store it, the checksum status, and where
/// in the archive buffer these three pieces lie.
pub struct NpyMutModel {
    pub data: Seq<u8>,
    pub crc32: Seq<u8>,
    pub central_crc32: Seq<u8>,
    pub status: ChecksumStatus,
    pub data_range: ByteRange,
    pub crc32_range: ByteRange,
    pub central_crc32_range: ByteRange,
}

impl NpyMutModel {
    /// The checksum of the data equals the one stored in the central directory.
    pub open spec fn checksum_matches(self) -> bool {
        crc32_ieee(self.data) == le_u32(self.central_crc32)
    }

    /// A view whose status is `Correct` holds data that matches its central checksum.
    pub open spec fn status_holds(self) -> bool {
        self.status == ChecksumStatus::Correct ==> self.checksum_matches()
    }

    pub open spec fn with_status(self, status: ChecksumStatus) -> NpyMutModel {
        NpyMutModel { status, ..self }
    }

    /// The view after verifying its checksum.
    pub open spec fn after_verify(self) -> NpyMutModel {
        self.with_status(if self.checksum_matches() { ChecksumStatus::Correct } else { ChecksumStatus::Outdated })
    }

    /// What verifying the checksum returns.
    pub open spec fn verify_result(self) -> Result<u32, ErrorKind> {
        if self.checksum_matches() {
            Ok(le_u32(self.central_crc32))
        } else {
            Err(ErrorKind::Zip(ZipFault::InvalidChecksum))
        }
    }

    /// The view after updating its checksum: both stored copies hold the checksum of the data.
    pub open spec fn after_update(self) -> NpyMutModel {
        NpyMutModel {
            crc32: u32_le_bytes(crc32_ieee(self.data)),
            central_crc32: u32_le_bytes(crc32_ieee(self.data)),
            status: ChecksumStatus::Correct,
            ..self
        }
    }

    /// The view after settling it: an outdated checksum is updated, any other left alone.
    pub open spec fn after_settle(self) -> NpyMutModel {
        if self.status == ChecksumStatus::Outdated {
            self.after_update()
        } else {
            self
        }
    }
}

/// Mutable view of memory-mapped `.npy` files within an `.npz` file.
///
/// Does **not** automatically [verify](`Self::verify`) the CRC-32 checksum.
/// [`settle`](`Self::settle`) updates it if [`data_mut`](`Self::data_mut`) has been invoked
/// and the checksum has not been updated since by invoking [`update`](`Self::update`).
///
/// Its three pieces are borrowed from the archive buffer; every method keeps what each piece
/// will hold when the view is done with tied to the piece, so that the buffer sees it.
pub struct NpyViewMut<'a> {
    data: &'a mut [u8],
    crc32: &'a mut [u8],
    central_crc32: &'a mut [u8],
    status: ChecksumStatus,
    data_range: Ghost<ByteRange>,
    crc32_range: Ghost<ByteRange>,
    central_crc32_range: Ghost<ByteRange>,
}

impl<'a> View for NpyViewMut<'a> {
    type V = NpyMutModel;

    closed spec fn view(&self) -> NpyMutModel {
        NpyMutModel {
            data: self.data@,
            crc32: self.crc32@,
            central_crc32: self.central_crc32@,
            status: self.status,
            data_range: self.data_range@,
            crc32_range: self.crc32_range@,
            central_crc32_range: self.central_crc32_range@,
        }
    }
}

/// A reborrow of the slice behind `x`.
fn reborrow<'b, 'c>(x: &'b mut &'c mut [u8]) -> (r: &'b mut [u8])
    ensures
        r@ == (*old(x))@,
        (*final(x))@ == final(r)@,
        final(*final(x))@ == final(*old(x))@,
    no_unwind
{
    &mut **x
}

impl<'a> NpyViewMut<'a> {
    #[verifier::type_invariant]
    spec fn inv(self) -> bool {
        &&& self.crc32@.len() == 4
        &&& self.central_crc32@.len() == 4
        &&& self.status == ChecksumStatus::Correct ==> crc32_ieee(self.data@) == le_u32(self.central_crc32@)
    }

    /// The borrowed piece of the archive buffer that holds the data; what it holds once the
    /// view is done with is what the buffer holds at [`NpyMutModel::data_range`].
    pub closed spec fn data_piece(&self) -> &'a mut [u8] {
        self.data
    }

    /// The borrowed piece of the archive buffer that holds the local CRC-32.
    pub closed spec fn crc32_piece(&self) -> &'a mut [u8] {
        self.crc32
    }

    /// The borrowed piece of the archive buffer that holds the central CRC-32.
    pub closed spec fn central_crc32_piece(&self) -> &'a mut [u8] {
        self.central_crc32
    }

    /// CRC-32 checksum status: `Correct` only while the data matches the central checksum.
    pub fn status(&self) -> (s: ChecksumStatus)
        ensures
            s == self@.status,
            self@.status_holds(),
    {
        proof { use_type_invariant(self); }
        self.status
    }

    /// The bytes of the `.npy` file.
    pub fn data(&self) -> (d: &[u8])
        ensures
            d@ == self@.data,
            self@.status_holds(),
    {
        proof { use_type_invariant(self); }
        self.data
    }

    /// The bytes of the `.npy` file, to be changed in place.
    ///
    /// Changes the checksum status to `Outdated`.
    pub fn data_mut(&mut self) -> (d: &mut [u8])
        ensures
            d@ == old(self)@.data,
            final(self)@ == (NpyMutModel {
                data: final(d)@,
                crc32: old(self)@.crc32,
                central_crc32: old(self)@.central_crc32,
                status: ChecksumStatus::Outdated,
                ..old(self)@
            }),
            final(final(self).data_piece())@ == final(old(self).data_piece())@,
            final(final(self).crc32_piece())@ == final(old(self).crc32_piece())@,
            final(final(self).central_crc32_piece())@ == final(old(self).central_crc32_piece())@,
    {
        proof { use_type_invariant(&*self); }
        self.status = ChecksumStatus::Outdated;
        reborrow(&mut self.data)
    }

    /// Verifies and returns the CRC-32 checksum by reading the whole array.
    ///
    /// Changes the checksum status to `Outdated` if invalid or to `Correct` if valid.
    /// Fails with [`ZipFault::InvalidChecksum`] if the checksum is invalid.
    pub fn verify(&mut self) -> (res: Result<u32, ViewNpzError>)
        ensures
            final(self)@ == old(self)@.after_verify(),
            match old(self)@.verify_result() {
                Ok(c) => res matches Ok(r) && r == c,
                Err(k) => res matches Err(e) && e@ == k,
            },
            final(final(self).data_piece())@ == final(old(self).data_piece())@,
            final(final(self).crc32_piece())@ == final(old(self).crc32_piece())@,
            final(final(self).central_crc32_piece())@ == final(old(self).central_crc32_piece())@,
    {
        proof { use_type_invariant(&*self); }
        self.status = ChecksumStatus::Outdated;
        let crc32 = match crc32_verify(self.data, self.central_crc32) {
            Ok(c) => c,
            Err(f) => return Err(ViewNpzError::fault(f)),
        };
        self.status = ChecksumStatus::Correct;
        Ok(crc32)
    }

    /// Updates and returns the CRC-32 checksum by reading the whole array, writing it to both
    /// the local and the central copy.
    ///
    /// Changes the checksum status to `Correct`.
    pub fn update(&mut self) -> (crc: u32)
        ensures
            crc == crc32_ieee(old(self)@.data),
            final(self)@ == old(self)@.after_update(),
            final(final(self).data_piece())@ == final(old(self).data_piece())@,
            final(final(self).crc32_piece())@ == final(old(self).crc32_piece())@,
            final(final(self).central_crc32_piece())@ == final(old(self).central_crc32_piece())@,
    {
        proof { use_type_invariant(&*self); }
        self.status = ChecksumStatus::Outdated;
        let crc32 = crc32_update(self.data);
        let le = u32_to_le_bytes(crc32);
        self.central_crc32[0] = le[0];
        self.central_crc32[1] = le[1];
        self.central_crc32[2] = le[2];
        self.central_crc32[3] = le[3];
        self.crc32[0] = self.central_crc32[0];
        self.crc32[1] = self.central_crc32[1];
        self.crc32[2] = self.central_crc32[2];
        self.crc32[3] = self.central_crc32[3];
        assert(self.central_crc32@ =~= u32_le_bytes(crc32));
        assert(self.crc32@ =~= u32_le_bytes(crc32));
        proof { lemma_le_u32_roundtrip(crc32); }
        self.status = ChecksumStatus::Correct;
        crc32
    }

    /// Updates the checksum if it is outdated; a view that is done with should be settled,
    /// as dropping it does.
    pub fn settle(&mut self)
        ensures
            final(self)@ == old(self)@.after_settle(),
            final(final(self).data_piece())@ == final(old(self).data_piece())@,
            final(final(self).crc32_piece())@ == final(old(self).crc32_piece())@,
            final(final(self).central_crc32_piece())@ == final(old(self).central_crc32_piece())@,
    {
        if self.status == ChecksumStatus::Outdated {
            self.update();
        }
    }
}

/// Moves the element at `index` out, leaving `None`.
fn take_at<T>(v: &mut Vec<Option<T>>, index: usize) -> (r: Option<T>)
    requires
        index < old(v)@.len(),
    ensures
        r == old(v)@[index as int],
        final(v)@ == old(v)@.update(index as int, None),
    no_unwind
{
    let mut taken: Option<T> = None;
    std::mem::swap(&mut v[index], &mut taken);
    taken
}

/// Cuts `bytes` into the pieces `s`, which follow each other without overlap. When the
/// pieces are done with, the buffer holds their final contents at their regions and its own
/// bytes everywhere else.
fn split_disjoint<'a>(bytes: &'a mut [u8], s: &Vec<ByteRange>) -> (pieces: Vec<Option<&'a mut [u8]>>)
    requires
        cuttable(s@, old(bytes)@.len() as int),
    ensures
        pieces@.len() == s@.len(),
        forall|i: int| 0 <= i < s@.len() ==>
            ((#[trigger] pieces@[i]) matches Some(p) && p@ == s@[i].of(old(bytes)@)),
        final(bytes)@ == spliced(old(bytes)@, s@, Seq::new(s@.len(), |i: int| final(pieces@[i]->Some_0)@)),
{
    let ghost orig = bytes@;
    let ghost whole = final(bytes)@;
    let mut rest: &'a mut [u8] = bytes;
    let mut offset: usize = 0;
    let mut pieces: Vec<Option<&'a mut [u8]>> = Vec::new();
    let mut i: usize = 0;
    proof {
        reveal(spliced);
        assert(s@.take(0) =~= Seq::<ByteRange>::empty());
    }
    while i < s.len()
        invariant
            cuttable(s@, orig.len() as int),
            i <= s@.len(),
            offset <= orig.len(),
            rest@ == orig.subrange(offset as int, orig.len() as int),
            i == 0 ==> offset == 0,
            i > 0 ==> offset == s@[i - 1].end,
            pieces@.len() == i,
            forall|j: int| 0 <= j < i ==>
                ((#[trigger] pieces@[j]) matches Some(p) && p@ == s@[j].of(orig)),
            whole == spliced(orig.subrange(0, offset as int), s@.take(i as int),
                Seq::new(i as nat, |j: int| final(pieces@[j]->Some_0)@)) + final(rest)@,
        decreases s@.len() - i,
    {
        let r = s[i];
        assert(s@[i as int].start <= s@[i as int].end);
        assert(offset <= r.start);
        let ghost before = Seq::new(i as nat, |j: int| final(pieces@[j]->Some_0)@);
        let ghost old_pieces = pieces@;
        let ghost was = final(rest)@;
        let (gap, tail) = rest.split_at_mut(r.start - offset);
        assert(has_resolved(gap));
        let (piece, remaining) = tail.split_at_mut(r.end - r.start);
        assert(piece@ =~= r.of(orig));
        let ghost last = final(piece)@;
        proof {
            lemma_spliced_push(orig, s@, before, i as int, offset as int, last);
            assert(gap@ =~= orig.subrange(offset as int, r.start as int));
            assert(was == gap@ + (last + final(remaining)@));
        }
        pieces.push(Some(piece));
        proof {
            assert(pieces@.len() == i + 1);
            assert(pieces@.drop_last() =~= old_pieces);
            assert(final(pieces@[i as int]->Some_0)@ == last);
            let ghost after = Seq::new((i + 1) as nat, |j: int| final(pieces@[j]->Some_0)@);
            assert forall|j: int| 0 <= j < i + 1 implies #[trigger] after[j] == before.push(last)[j] by {
                if j < i {
                    assert(pieces@[j] == old_pieces[j]);
                }
            }
            assert(after =~= before.push(last));
            let ghost x = spliced(orig.subrange(0, offset as int), s@.take(i as int), before);
            let ghost g = orig.subrange(offset as int, r.start as int);
            assert(whole == x + (g + (last + final(remaining)@)));
            assert(x + (g + (last + final(remaining)@)) =~= ((x + g) + last) + final(remaining)@);
        }
        assert(remaining@ =~= orig.subrange(r.end as int, orig.len() as int));
        rest = remaining;
        offset = r.end;
        i += 1;
    }
    proof {
        assert(s@.take(s@.len() as int) =~= s@);
        assert(offset <= orig.len());
        assert(rest@ == orig.subrange(offset as int, orig.len() as int));
    }
    assert(has_resolved(rest));
    assert(final(rest)@ == rest@);
    proof {
        let ghost c = Seq::new(i as nat, |j: int| final(pieces@[j]->Some_0)@);
        assert(whole == spliced(orig.subrange(0, offset as int), s@.take(i as int), c) + final(rest)@);
        assert(s@.take(i as int) == s@);
        assert(whole == spliced(orig.subrange(0, offset as int), s@, c) + orig.subrange(offset as int, orig.len() as int));
        if s@.len() > 0 {
            lemma_cuttable_to_last(s@, orig.len() as int);
        }
        lemma_spliced_extend(orig, s@, c, offset as int);
        assert(whole == spliced(orig, s@, c));
    }
    pieces
}

/// What an [`NpzViewMut`] shows: the names of its viewable members in index order, their
/// views (`None` once moved out), the names of its directories, compressed and encrypted
/// members, the ordered regions along which the buffer was cut, and the positions of each
/// member's data, local CRC-32 and central CRC-32 pieces among them.
pub struct NpzMutModel {
    pub names: Seq<Seq<char>>,
    pub files: Seq<Option<NpyMutModel>>,
    pub directory_names: Seq<Seq<char>>,
    pub compressed_names: Seq<Seq<char>>,
    pub encrypted_names: Seq<Seq<char>>,
    pub regions: Seq<ByteRange>,
    pub slots: Seq<Slots>,
}

/// The byte ranges `a` and `b` share no byte.
pub open spec fn ranges_apart(a: ByteRange, b: ByteRange) -> bool {
    a.end <= b.start || b.end <= a.start
}

/// The three pieces of the member `f` lie within `n` bytes and share no byte.
pub open spec fn pieces_own(f: NpyMutModel, n: int) -> bool {
    &&& f.data_range.within(n)
    &&& f.crc32_range.within(n)
    &&& f.central_crc32_range.within(n)
    &&& ranges_apart(f.data_range, f.crc32_range)
    &&& ranges_apart(f.data_range, f.central_crc32_range)
    &&& ranges_apart(f.crc32_range, f.central_crc32_range)
}

/// No piece of the member `f` shares a byte with a piece of the member `g`.
pub open spec fn members_apart(f: NpyMutModel, g: NpyMutModel) -> bool {
    &&& ranges_apart(f.data_range, g.data_range)
    &&& ranges_apart(f.data_range, g.crc32_range)
    &&& ranges_apart(f.data_range, g.central_crc32_range)
    &&& ranges_apart(f.crc32_range, g.data_range)
    &&& ranges_apart(f.crc32_range, g.crc32_range)
    &&& ranges_apart(f.crc32_range, g.central_crc32_range)
    &&& ranges_apart(f.central_crc32_range, g.data_range)
    &&& ranges_apart(f.central_crc32_range, g.crc32_range)
    &&& ranges_apart(f.central_crc32_range, g.central_crc32_range)
}

/// The fresh view of one member, whose pieces are at `sl` in the ordered map `s`.
pub open spec fn piece_view(bytes: Seq<u8>, s: Seq<ByteRange>, sl: Slots) -> NpyMutModel {
    NpyMutModel {
        data: s[sl.data as int].of(bytes),
        crc32: s[sl.crc32 as int].of(bytes),
        central_crc32: s[sl.central_crc32 as int].of(bytes),
        status: ChecksumStatus::Unverified,
        data_range: s[sl.data as int],
        crc32_range: s[sl.crc32 as int],
        central_crc32_range: s[sl.central_crc32 as int],
    }
}

/// The mutable view of the archive `bytes` with the layout `l`.
pub open spec fn view_mut_from_layout(bytes: Seq<u8>, l: crate::layout::LayoutModel) -> NpzMutModel {
    NpzMutModel {
        names: l.names,
        files: Seq::new(l.slots.len(), |k: int| Some(piece_view(bytes, l.splits, l.slots[k]))),
        directory_names: l.directory_names,
        compressed_names: l.compressed_names,
        encrypted_names: l.encrypted_names,
        regions: l.splits,
        slots: l.slots,
    }
}

/// What mutably viewing the archive `bytes` with the entries `entries` gives.
pub open spec fn view_mut_of(bytes: Seq<u8>, entries: Seq<(Seq<char>, crate::archive::EntryOutcome)>) -> Stage<NpzMutModel> {
    match layout_of(bytes, entries) {
        Stage::Stuck => Stage::Stuck,
        Stage::Fail(k) => Stage::Fail(k),
        Stage::Done(l) => Stage::Done(view_mut_from_layout(bytes, l)),
    }
}

impl NpzMutModel {
    /// Every viewable member has one slot, and no two share a name.
    pub open spec fn valid(self) -> bool {
        &&& self.files.len() == self.names.len()
        &&& self.names.no_duplicates()
    }
}

/// What moving a member out by name gives.
pub open spec fn lookup_mut_by_name(m: NpzMutModel, name: Seq<char>) -> Result<NpyMutModel, ErrorKind> {
    match m.names.index_of_first(name) {
        Some(i) => match m.files[i] {
            Some(f) => Ok(f),
            None => Err(ErrorKind::MovedNpyViewMut),
        },
        None => if m.directory_names.contains(name) {
            Err(ErrorKind::Directory)
        } else if m.compressed_names.contains(name) {
            Err(ErrorKind::CompressedFile)
        } else if m.encrypted_names.contains(name) {
            Err(ErrorKind::EncryptedFile)
        } else {
            Err(ErrorKind::Zip(ZipFault::FileNotFound))
        },
    }
}

/// What moving a member out by index gives.
pub open spec fn take_by_index(m: NpzMutModel, index: int) -> Result<NpyMutModel, ErrorKind> {
    if index < 0 || index >= m.names.len() {
        Err(ErrorKind::Zip(ZipFault::FileNotFound))
    } else {
        match m.files[index] {
            Some(f) => Ok(f),
            None => Err(ErrorKind::MovedNpyViewMut),
        }
    }
}

/// The view after the member at `index` has been moved out.
pub open spec fn without_file(m: NpzMutModel, index: int) -> NpzMutModel {
    NpzMutModel { files: m.files.update(index, None), ..m }
}

/// Mutable view for memory-mapped `.npz` files.
///
/// Provides an [`NpyViewMut`] for each uncompressed and unencrypted `.npy` file within the
/// archive, each over its own disjoint part of the buffer, so that all of them can be held
/// at once.
pub struct NpzViewMut<'a> {
    files: Vec<Option<NpyViewMut<'a>>>,
    names: Vec<String>,
    directory_names: Vec<String>,
    compressed_names: Vec<String>,
    encrypted_names: Vec<String>,
    regions: Ghost<Seq<ByteRange>>,
    slots: Ghost<Seq<Slots>>,
}

/// The member `sl` owns the piece at position `q`.
pub open spec fn slot_has(sl: Slots, q: int) -> bool {
    sl.data == q || sl.crc32 == q || sl.central_crc32 == q
}

/// One of the first `k` members owns the piece at position `q`.
pub open spec fn used_by(slots: Seq<Slots>, k: int, q: int) -> bool {
    exists|j: int| 0 <= j < k && #[trigger] slot_has(slots[j], q)
}

spec fn file_view<'a>(f: Option<NpyViewMut<'a>>) -> Option<NpyMutModel> {
    match f {
        Some(v) => Some(v@),
        None => None,
    }
}

impl<'a> View for NpzViewMut<'a> {
    type V = NpzMutModel;

    closed spec fn view(&self) -> NpzMutModel {
        NpzMutModel {
            names: strings(self.names@),
            files: self.files@.map_values(|f: Option<NpyViewMut<'a>>| file_view(f)),
            directory_names: strings(self.directory_names@),
            compressed_names: strings(self.compressed_names@),
            encrypted_names: strings(self.encrypted_names@),
            regions: self.regions@,
            slots: self.slots@,
        }
    }
}

/// The piece of the archive buffer that the view `v` holds at region `q`: the data, local
/// CRC-32 or central CRC-32 piece of the member whose slots name `q`, where there is such
/// a member and its view has not been moved out.
pub open spec fn region_piece<'a>(v: &NpzViewMut<'a>, q: int) -> Option<&'a mut [u8]> {
    if exists|k: int| 0 <= k < v@.slots.len() && #[trigger] slot_has(v@.slots[k], q) {
        let k = choose|k: int| 0 <= k < v@.slots.len() && #[trigger] slot_has(v@.slots[k], q);
        let sl = v@.slots[k];
        match v.file(k) {
            Some(f) => Some(
                if sl.data == q {
                    f.data_piece()
                } else if sl.crc32 == q {
                    f.crc32_piece()
                } else {
                    f.central_crc32_piece()
                },
            ),
            None => None,
        }
    } else {
        None
    }
}

impl<'a> NpzViewMut<'a> {
    #[verifier::type_invariant]
    spec fn inv(self) -> bool {
        &&& self.files@.len() == self.names@.len()
        &&& strings(self.names@).no_duplicates()
    }

    /// The view of the member at index `k`, as it is held (`None` once moved out).
    pub closed spec fn file(&self, k: int) -> Option<NpyViewMut<'a>> {
        self.files@[k]
    }

    /// Creates a new mutable view of a memory-mapped `.npz` file.
    ///
    /// Fails with the zip crate's error where it cannot read the archive or one of its
    /// unencrypted entries, and where the regions of the members run beyond the buffer,
    /// overlap, or start at the same offset; a failed call leaves the buffer as it was.
    /// Each member's view borrows its data, local CRC-32 and central CRC-32 from the buffer
    /// at that member's regions, so that edits and checksum updates through the views are
    /// what the buffer holds there once the views are done with.
    pub fn new(bytes: &'a mut [u8]) -> (res: Result<Self, ViewNpzError>)
        requires
            zip_directory(old(bytes)@) matches Some(entries) ==> !(layout_of(old(bytes)@, entries) is Stuck),
        ensures
            zip_directory(old(bytes)@) is None ==> (res matches Err(e) && e matches ViewNpzError::Zip(ZipFault::Archive, Some(_))),
            res matches Err(e) ==> (e@ == ErrorKind::Zip(ZipFault::Archive) ==> e matches ViewNpzError::Zip(ZipFault::Archive, Some(_))),
            zip_directory(old(bytes)@) matches Some(entries) ==> match view_mut_of(old(bytes)@, entries) {
                Stage::Done(m) => res matches Ok(v) && v@ == m,
                Stage::Fail(k) => res matches Err(e) && e@ == k,
                Stage::Stuck => false,
            },
            res matches Ok(v) ==> final(bytes)@ == spliced(old(bytes)@, v@.regions, Seq::new(v@.regions.len(),
                |q: int| match region_piece(&v, q) {
                    Some(p) => final(p)@,
                    None => v@.regions[q].of(old(bytes)@),
                })),
            res is Err ==> final(bytes)@ == old(bytes)@,
    {
        let listing = Listing::read(bytes)?;
        Self::from_listing(bytes, listing)
    }

    /// Creates a new mutable view of a memory-mapped `.npz` file, or `None` where reading a
    /// CRC-32 would reach beyond the buffer or a CRC-32 region would not be four bytes long.
    pub fn try_new(bytes: &'a mut [u8]) -> (res: Option<Result<Self, ViewNpzError>>)
        ensures
            res is None <==> (zip_directory(old(bytes)@) matches Some(entries) && layout_of(old(bytes)@, entries) is Stuck),
            zip_directory(old(bytes)@) is None ==> (res matches Some(Err(e)) && e matches ViewNpzError::Zip(ZipFault::Archive, Some(_))),
            res matches Some(Err(e)) ==> (e@ == ErrorKind::Zip(ZipFault::Archive) ==> e matches ViewNpzError::Zip(ZipFault::Archive, Some(_))),
            zip_directory(old(bytes)@) matches Some(entries) ==> match view_mut_of(old(bytes)@, entries) {
                Stage::Done(m) => res matches Some(Ok(v)) && v@ == m,
                Stage::Fail(k) => res matches Some(Err(e)) && e@ == k,
                Stage::Stuck => res is None,
            },
            res matches Some(Ok(v)) ==> final(bytes)@ == spliced(old(bytes)@, v@.regions, Seq::new(v@.regions.len(),
                |q: int| match region_piece(&v, q) {
                    Some(p) => final(p)@,
                    None => v@.regions[q].of(old(bytes)@),
                })),
            !(res matches Some(Ok(_))) ==> final(bytes)@ == old(bytes)@,
    {
        let stuck = match Listing::read(bytes) {
            Err(_) => false,
            Ok(listing) => match plan_layout(bytes, listing) {
                LayoutOutcome::Stuck => true,
                _ => false,
            },
        };
        if stuck {
            None
        } else {
            Some(Self::new(bytes))
        }
    }

    /// Builds the mutable view of the archive `bytes` from the entries that the zip crate listed.
    ///
    /// On success every member's three pieces are borrowed from the buffer at the regions its
    /// slots name: once the views are done with, the buffer holds at each region what the
    /// piece there holds then, and its own bytes everywhere else. On failure the buffer is
    /// left as it was.
    pub fn from_listing(bytes: &'a mut [u8], listing: Listing) -> (res: Result<Self, ViewNpzError>)
        requires
            listing.wf(),
            central_headers_within(listing@, old(bytes)@.len() as int),
            !(layout_of(old(bytes)@, listing@) is Stuck),
        ensures
            match view_mut_of(old(bytes)@, listing@) {
                Stage::Done(m) => res matches Ok(v) && v@ == m,
                Stage::Fail(k) => res matches Err(e) && e@ == k,
                Stage::Stuck => false,
            },
            res matches Err(e) ==> (e@ == ErrorKind::Zip(ZipFault::Archive) ==> e matches ViewNpzError::Zip(ZipFault::Archive, Some(_))),
            res matches Ok(v) ==> final(bytes)@ == spliced(old(bytes)@, v@.regions, Seq::new(v@.regions.len(),
                |q: int| match region_piece(&v, q) {
                    Some(p) => final(p)@,
                    None => v@.regions[q].of(old(bytes)@),
                })),
            res is Err ==> final(bytes)@ == old(bytes)@,
    {
        let ghost orig = bytes@;
        let layout = match plan_layout(bytes, listing) {
            LayoutOutcome::Planned(l) => l,
            LayoutOutcome::Failed(e) => return Err(e),
            LayoutOutcome::Stuck => return Err(ViewNpzError::fault(ZipFault::Archive)),
        };
        let ghost lm = layout@;
        let Layout { names, directory_names, compressed_names, encrypted_names, splits, slots } = layout;
        let mut pieces = split_disjoint(bytes, &splits);
        let ghost init = pieces@;
        let mut files: Vec<Option<NpyViewMut<'a>>> = Vec::new();
        let mut k: usize = 0;
        while k < slots.len()
            invariant
                slots@ == lm.slots,
                splits@ == lm.splits,
                slots_ok(slots@, splits@),
                cuttable(splits@, orig.len() as int),
                init.len() == splits@.len(),
                forall|q: int| 0 <= q < init.len() ==>
                    ((#[trigger] init[q]) matches Some(p) && p@ == splits@[q].of(orig)),
                pieces@.len() == splits@.len(),
                k <= slots@.len(),
                files@.len() == k,
                forall|j: int| 0 <= j < k ==>
                    file_view(#[trigger] files@[j]) == Some(piece_view(orig, splits@, slots@[j])),
                forall|j: int| 0 <= j < k ==> (#[trigger] files@[j] matches Some(f) && {
                    &&& final(init[slots@[j].data as int]->Some_0)@ == final(f.data_piece())@
                    &&& final(init[slots@[j].crc32 as int]->Some_0)@ == final(f.crc32_piece())@
                    &&& final(init[slots@[j].central_crc32 as int]->Some_0)@ == final(f.central_crc32_piece())@
                }),
                forall|q: int| 0 <= q < pieces@.len() ==> {
                    &&& used_by(slots@, k as int, q) ==> (#[trigger] pieces@[q]) is None
                    &&& !used_by(slots@, k as int, q) ==> pieces@[q] == init[q]
                },
            decreases slots@.len() - k,
        {
            let sl = slots[k];
            proof {
                assert(slot_within(slots@[k as int], splits@));
                assert forall|q: int| slot_has(sl, q) implies !used_by(slots@, k as int, q) by {
                    if used_by(slots@, k as int, q) {
                        let j = choose|j: int| 0 <= j < k && #[trigger] slot_has(slots@[j], q);
                        assert(slots_apart(slots@[j], slots@[k as int]));
                    }
                }
                assert(slot_has(sl, sl.data as int));
                assert(slot_has(sl, sl.crc32 as int));
                assert(slot_has(sl, sl.central_crc32 as int));
            }
            let data = take_at(&mut pieces, sl.data).unwrap();
            let crc32 = take_at(&mut pieces, sl.crc32).unwrap();
            let central_crc32 = take_at(&mut pieces, sl.central_crc32).unwrap();
            assert(data@ == splits@[sl.data as int].of(orig));
            assert(crc32@ == splits@[sl.crc32 as int].of(orig));
            assert(central_crc32@ == splits@[sl.central_crc32 as int].of(orig));
            let file = NpyViewMut {
                data,
                crc32,
                central_crc32,
                status: ChecksumStatus::Unverified,
                data_range: Ghost(splits@[sl.data as int]),
                crc32_range: Ghost(splits@[sl.crc32 as int]),
                central_crc32_range: Ghost(splits@[sl.central_crc32 as int]),
            };
            assert(final(init[sl.data as int]->Some_0)@ == final(file.data_piece())@);
            assert(final(init[sl.crc32 as int]->Some_0)@ == final(file.crc32_piece())@);
            assert(final(init[sl.central_crc32 as int]->Some_0)@ == final(file.central_crc32_piece())@);
            files.push(Some(file));
            proof {
                assert forall|q: int| #[trigger] used_by(slots@, k + 1, q) <==> (used_by(slots@, k as int, q) || slot_has(sl, q)) by {
                    if used_by(slots@, k + 1, q) {
                        let j = choose|j: int| 0 <= j < k + 1 && #[trigger] slot_has(slots@[j], q);
                        if j < k {
                            assert(used_by(slots@, k as int, q));
                        }
                    }
                    if used_by(slots@, k as int, q) {
                        let j = choose|j: int| 0 <= j < k && #[trigger] slot_has(slots@[j], q);
                        assert(0 <= j < k + 1 && slot_has(slots@[j], q));
                    }
                    if slot_has(sl, q) {
                        assert(0 <= k < k + 1 && slot_has(slots@[k as int], q));
                    }
                }
                assert forall|j: int| 0 <= j < k + 1 implies
                    file_view(#[trigger] files@[j]) == Some(piece_view(orig, splits@, slots@[j])) by {
                    if j == k {
                        assert(files@[j] == Some(file));
                    }
                }
            }
            k += 1;
        }
        let ghost left = pieces@;
        assert(has_resolved(pieces));
        let archive = NpzViewMut {
            files,
            names,
            directory_names,
            compressed_names,
            encrypted_names,
            regions: Ghost(splits@),
            slots: Ghost(slots@),
        };
        assert(archive@.files =~= view_mut_from_layout(orig, lm).files);
        proof {
            let fin = Seq::new(splits@.len(), |q: int| final(init[q]->Some_0)@);
            let shown = Seq::new(archive@.regions.len(), |q: int| match region_piece(&archive, q) {
                Some(p) => final(p)@,
                None => archive@.regions[q].of(orig),
            });
            assert forall|q: int| 0 <= q < splits@.len() implies #[trigger] shown[q] == fin[q] by {
                if exists|j: int| 0 <= j < slots@.len() && #[trigger] slot_has(slots@[j], q) {
                    let j = choose|j: int| 0 <= j < slots@.len() && #[trigger] slot_has(slots@[j], q);
                    assert(archive.file(j) == files@[j]);
                } else {
                    assert(!used_by(slots@, k as int, q));
                    assert(left[q] == init[q]);
                    assert(has_resolved(left[q]));
                }
            }
            assert(shown =~= fin);
        }
        Ok(archive)
    }

    /// Returns `true` iff the `.npz` file doesn't contain any viewable arrays.
    pub fn is_empty(&self) -> (b: bool)
        ensures
            b == (self@.names.len() == 0),
    {
        self.names.len() == 0
    }

    /// Returns the number of viewable arrays in the `.npz` file.
    pub fn len(&self) -> (n: usize)
        ensures
            n == self@.names.len(),
            self@.valid(),
    {
        proof { use_type_invariant(self); }
        self.names.len()
    }

    /// Returns the names of all of the viewable arrays, in index order.
    pub fn names(&self) -> (r: &[String])
        ensures
            strings(r@) == self@.names,
    {
        self.names.as_slice()
    }

    /// Returns the names of all of the directories in the `.npz` file.
    pub fn directory_names(&self) -> (r: &[String])
        ensures
            strings(r@) == self@.directory_names,
    {
        self.directory_names.as_slice()
    }

    /// Returns the names of all of the compressed files in the `.npz` file.
    pub fn compressed_names(&self) -> (r: &[String])
        ensures
            strings(r@) == self@.compressed_names,
    {
        self.compressed_names.as_slice()
    }

    /// Returns the names of all of the encrypted files in the `.npz` file.
    pub fn encrypted_names(&self) -> (r: &[String])
        ensures
            strings(r@) == self@.encrypted_names,
    {
        self.encrypted_names.as_slice()
    }

    /// Moves a mutable `.npy` file view by name out of the `.npz` file view.
    ///
    /// Trying to view a directory, compressed file, or encrypted file fails with
    /// [`ViewNpzError::Directory`], [`ViewNpzError::CompressedFile`], or
    /// [`ViewNpzError::EncryptedFile`]. Fails with [`ZipFault::FileNotFound`] if the `name`
    /// is not found, and with [`ViewNpzError::MovedNpyViewMut`] if the view has already been
    /// moved out.
    pub fn by_name(&mut self, name: &str) -> (res: Result<NpyViewMut<'a>, ViewNpzError>)
        ensures
            match lookup_mut_by_name(old(self)@, name@) {
                Ok(f) => res matches Ok(v) && v@ == f,
                Err(k) => res matches Err(e) && e@ == k,
            },
            match old(self)@.names.index_of_first(name@) {
                Some(i) => {
                    &&& final(self)@ == without_file(old(self)@, i)
                    &&& res matches Ok(f) ==> old(self).file(i) == Some(f)
                    &&& forall|j: int| 0 <= j < old(self)@.files.len() && j != i ==> #[trigger] final(self).file(j) == old(self).file(j)
                },
                None => {
                    &&& final(self)@ == old(self)@
                    &&& forall|j: int| 0 <= j < old(self)@.files.len() ==> #[trigger] final(self).file(j) == old(self).file(j)
                },
            },
    {
        proof { use_type_invariant(&*self); }
        let key = name.to_owned();
        match find_first(&self.names, &key) {
            Some(index) => self.by_index(index),
            None => {
                if find_first(&self.directory_names, &key).is_some() {
                    Err(ViewNpzError::Directory)
                } else if find_first(&self.compressed_names, &key).is_some() {
                    Err(ViewNpzError::CompressedFile)
                } else if find_first(&self.encrypted_names, &key).is_some() {
                    Err(ViewNpzError::EncryptedFile)
                } else {
                    Err(ViewNpzError::fault(ZipFault::FileNotFound))
                }
            },
        }
    }

    /// Moves a mutable `.npy` file view by index in `0..len()` out of the `.npz` file view.
    ///
    /// The index does not necessarily correspond to the index of the zip archive as
    /// directories, compressed files, and encrypted files are skipped. Fails with
    /// [`ZipFault::FileNotFound`] if the `index` is not in `0..len()`, and with
    /// [`ViewNpzError::MovedNpyViewMut`] if the view has already been moved out.
    pub fn by_index(&mut self, index: usize) -> (res: Result<NpyViewMut<'a>, ViewNpzError>)
        ensures
            match take_by_index(old(self)@, index as int) {
                Ok(f) => res matches Ok(v) && v@ == f,
                Err(k) => res matches Err(e) && e@ == k,
            },
            index >= old(self)@.names.len() ==> final(self)@ == old(self)@,
            index < old(self)@.names.len() ==> final(self)@ == without_file(old(self)@, index as int),
            res matches Ok(f) ==> old(self).file(index as int) == Some(f),
            forall|j: int| 0 <= j < old(self)@.files.len() && j != index ==> #[trigger] final(self).file(j) == old(self).file(j),
    {
        proof { use_type_invariant(&*self); }
        if index >= self.names.len() {
            return Err(ViewNpzError::fault(ZipFault::FileNotFound));
        }
        let ghost before = self@;
        let taken = take_at(&mut self.files, index);
        assert(self@.files =~= before.files.update(index as int, None));
        match taken {
            Some(file) => Ok(file),
            None => Err(ViewNpzError::MovedNpyViewMut),
        }
    }
}

// ---------------------------------------------------------------------------------------
// Laws.

/// After updating the checksum, verifying it succeeds with the same checksum and leaves
/// the view as it is.
pub proof fn law_update_then_verify(m: NpyMutModel)
    ensures
        m.after_update().verify_result() == Ok::<u32, ErrorKind>(crc32_ieee(m.data)),
        m.after_update().after_verify() == m.after_update(),
{
    lemma_le_u32_roundtrip(crc32_ieee(m.data));
}

/// Verifying reads the data whatever the status: it succeeds with the stored central
/// checksum and marks the view `Correct` exactly when the CRC-32 of the data equals that
/// checksum, and otherwise fails as an invalid checksum and marks the view `Outdated`; the
/// status before, and the other fields, play no part.
pub proof fn law_verify_reads_data(m: NpyMutModel, s: ChecksumStatus)
    ensures
        crc32_ieee(m.data) == le_u32(m.central_crc32) ==> {
            &&& m.verify_result() == Ok::<u32, ErrorKind>(le_u32(m.central_crc32))
            &&& m.after_verify().status == ChecksumStatus::Correct
        },
        crc32_ieee(m.data) != le_u32(m.central_crc32) ==> {
            &&& m.verify_result() == Err::<u32, ErrorKind>(ErrorKind::Zip(ZipFault::InvalidChecksum))
            &&& m.after_verify().status == ChecksumStatus::Outdated
        },
        m.with_status(s).verify_result() == m.verify_result(),
        m.with_status(s).after_verify() == m.after_verify(),
        m.after_verify().data == m.data,
        m.after_verify().central_crc32 == m.central_crc32,
{
}

/// Verifying twice gives what verifying once gives.
pub proof fn law_verify_idempotent(m: NpyMutModel)
    ensures
        m.after_verify().verify_result() == m.verify_result(),
        m.after_verify().after_verify() == m.after_verify(),
{
}

/// Verifying touches neither the data nor the stored checksums.
pub proof fn law_verify_keeps_bytes(m: NpyMutModel)
    ensures
        m.after_verify().data == m.data,
        m.after_verify().crc32 == m.crc32,
        m.after_verify().central_crc32 == m.central_crc32,
{
}

/// Settling a view whose data was handed out for change updates its checksum; settling
/// any other view changes nothing; a settled view is never outdated.
pub proof fn law_settle(m: NpyMutModel)
    ensures
        m.with_status(ChecksumStatus::Outdated).after_settle() == m.after_update(),
        m.status != ChecksumStatus::Outdated ==> m.after_settle() == m,
        m.after_settle().status != ChecksumStatus::Outdated,
{
}

/// Every step of a member view keeps its status honest: where the status is `Correct`, the
/// data matches the central checksum, before and after verifying, updating, settling, or
/// handing the data out for change.
pub proof fn law_status_kept(m: NpyMutModel)
    ensures
        m.after_verify().status_holds(),
        m.after_update().status_holds(),
        m.status_holds() ==> m.after_settle().status_holds(),
        m.with_status(ChecksumStatus::Outdated).status_holds(),
        m.with_status(ChecksumStatus::Unverified).status_holds(),
{
    lemma_le_u32_roundtrip(crc32_ieee(m.data));
}

/// In a valid view, moving a member out by its name gives the member at its index.
pub proof fn law_by_name_is_by_index(m: NpzMutModel, i: int)
    requires
        m.valid(),
        0 <= i < m.names.len(),
    ensures
        lookup_mut_by_name(m, m.names[i]) == take_by_index(m, i),
        m.names.index_of_first(m.names[i]) == Some(i),
{
    m.names.index_of_first_ensures(m.names[i]);
    let j = m.names.index_of_first(m.names[i]).unwrap();
    assert(j == i) by {
        if j != i {
            assert(m.names[j] == m.names[i]);
        }
    }
}

/// A member can be moved out only once: moving it out again fails as already moved, and
/// moving it out leaves the name lists and every other member where they were, so each other
/// member is still found by its name.
pub proof fn law_take_once(m: NpzMutModel, i: int, j: int)
    requires
        m.valid(),
        0 <= i < m.names.len(),
    ensures
        take_by_index(without_file(m, i), i) == Err::<NpyMutModel, ErrorKind>(ErrorKind::MovedNpyViewMut),
        j != i ==> take_by_index(without_file(m, i), j) == take_by_index(m, j),
        0 <= j < m.names.len() && j != i ==> without_file(m, i).files[j] == m.files[j],
        j != i && 0 <= j < m.names.len() ==>
            lookup_mut_by_name(without_file(m, i), m.names[j]) == lookup_mut_by_name(m, m.names[j]),
        without_file(m, i).valid(),
        without_file(m, i).names == m.names,
        without_file(m, i).directory_names == m.directory_names,
        without_file(m, i).compressed_names == m.compressed_names,
        without_file(m, i).encrypted_names == m.encrypted_names,
{
    if j != i && 0 <= j < m.names.len() {
        law_by_name_is_by_index(m, j);
        law_by_name_is_by_index(without_file(m, i), j);
    }
}

} // verus!
