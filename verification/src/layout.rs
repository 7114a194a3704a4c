//! Where the regions of each uncompressed `.npy` member lie in an archive buffer, and how
//! the buffer is cut into disjoint pieces for mutable views.

use vstd::prelude::*;

use crate::archive::{central_headers_within, names_distinct, EntryFacts, EntryLookup, EntryOutcome, Listing};
use crate::bytes::{le_u16, le_u32, range_at, spec_range_at, u16_at, u32_at, ByteRange};
use crate::error::{ErrorKind, ViewNpzError, ZipFault};
use crate::strings::{remove_first, strings};

verus! {

/// The three regions of a member that a mutable view needs: its data, its CRC-32 in the
/// local header or data descriptor, and its CRC-32 in the central directory.
#[derive(Clone, Copy, Debug, PartialEq, Eq, Structural)]
pub struct FileRanges {
    pub data: ByteRange,
    pub crc32: ByteRange,
    pub central_crc32: ByteRange,
}

/// How a computation on an archive ends: as it would panic, with an error, or with a value.
pub enum Stage<T> {
    Stuck,
    Fail(ErrorKind),
    Done(T),
}

/// Signature that may precede a data descriptor.
pub const DATA_DESCRIPTOR_SIGNATURE: u32 = 0x0807_4b50;

/// The regions of a stored member with the given facts.
///
/// The CRC-32 of the local header is at offset 14 of it, unless bit 3 of the general purpose
/// flag in the central header says that it follows the data in a data descriptor, where it
/// may be preceded by the descriptor's optional signature.
pub open spec fn plan_file(bytes: Seq<u8>, f: EntryFacts) -> Stage<FileRanges> {
    match spec_range_at(f.data_start, 0, f.size) {
        None => Stage::Fail(ErrorKind::Zip(ZipFault::RangeOverflow)),
        Some(data) => match spec_range_at(f.central_header_start, 8, 10) {
            None => Stage::Fail(ErrorKind::Zip(ZipFault::RangeOverflow)),
            Some(flag_range) => match spec_range_at(f.central_header_start, 16, 20) {
                None => Stage::Fail(ErrorKind::Zip(ZipFault::RangeOverflow)),
                Some(central) => if le_u16(flag_range.of(bytes)) & 8u16 != 0u16 {
                    match spec_range_at(data.end as u64, 0, 4) {
                        None => Stage::Fail(ErrorKind::Zip(ZipFault::RangeOverflow)),
                        Some(local) => if !local.within(bytes.len() as int) {
                            Stage::Stuck
                        } else if le_u32(local.of(bytes)) == DATA_DESCRIPTOR_SIGNATURE {
                            if le_u32(local.of(bytes)) == le_u32(central.of(bytes)) {
                                Stage::Fail(ErrorKind::Zip(ZipFault::AmbiguousCrc32))
                            } else {
                                match spec_range_at(data.end as u64, 4, 8) {
                                    None => Stage::Fail(ErrorKind::Zip(ZipFault::RangeOverflow)),
                                    Some(r) => Stage::Done(FileRanges { data, crc32: r, central_crc32: central }),
                                }
                            }
                        } else {
                            Stage::Done(FileRanges { data, crc32: local, central_crc32: central })
                        },
                    }
                } else {
                    match spec_range_at(f.header_start, 14, 18) {
                        None => Stage::Fail(ErrorKind::Zip(ZipFault::RangeOverflow)),
                        Some(r) => Stage::Done(FileRanges { data, crc32: r, central_crc32: central }),
                    }
                },
            },
        },
    }
}

/// Every range of `r` runs forwards.
pub open spec fn forwards(r: FileRanges) -> bool {
    &&& r.data.start <= r.data.end
    &&& r.crc32.start <= r.crc32.end
    &&& r.central_crc32.start <= r.central_crc32.end
}

/// How computing the regions of one member ended.
pub enum FilePlan {
    /// Reading the local CRC-32 would reach beyond the buffer.
    Stuck,
    Fault(ZipFault),
    Ranges(FileRanges),
}

/// Computes the regions of a stored member whose central header lies within `bytes`.
pub fn plan_file_ranges(bytes: &[u8], f: EntryFacts) -> (res: FilePlan)
    requires
        f.central_header_start + 46 <= bytes@.len(),
    ensures
        match plan_file(bytes@, f) {
            Stage::Done(r) => res == FilePlan::Ranges(r),
            Stage::Fail(k) => res matches FilePlan::Fault(x) && k == ErrorKind::Zip(x),
            Stage::Stuck => res is Stuck,
        },
        res matches FilePlan::Ranges(r) ==> forwards(r),
{
    let data_range = match range_at(f.data_start, 0, f.size) {
        Ok(r) => r,
        Err(x) => return FilePlan::Fault(x),
    };
    let central_flag_range = match range_at(f.central_header_start, 8, 10) {
        Ok(r) => r,
        Err(x) => return FilePlan::Fault(x),
    };
    let central_flag = u16_at(bytes, central_flag_range);
    let central_crc32_range = match range_at(f.central_header_start, 16, 20) {
        Ok(r) => r,
        Err(x) => return FilePlan::Fault(x),
    };
    let use_data_descriptor = central_flag & 8u16 != 0;
    let crc32_range = if use_data_descriptor {
        let crc32_range = match range_at(data_range.end as u64, 0, 4) {
            Ok(r) => r,
            Err(x) => return FilePlan::Fault(x),
        };
        if crc32_range.end > bytes.len() {
            return FilePlan::Stuck;
        }
        let crc32 = u32_at(bytes, crc32_range);
        if crc32 == DATA_DESCRIPTOR_SIGNATURE {
            let central_crc32 = u32_at(bytes, central_crc32_range);
            if crc32 == central_crc32 {
                return FilePlan::Fault(ZipFault::AmbiguousCrc32);
            }
            match range_at(data_range.end as u64, 4, 8) {
                Ok(r) => r,
                Err(x) => return FilePlan::Fault(x),
            }
        } else {
            crc32_range
        }
    } else {
        match range_at(f.header_start, 14, 18) {
            Ok(r) => r,
            Err(x) => return FilePlan::Fault(x),
        }
    };
    FilePlan::Ranges(FileRanges { data: data_range, crc32: crc32_range, central_crc32: central_crc32_range })
}

// ---------------------------------------------------------------------------------------
// The ordered map from region starts to region ends.

/// The starts strictly increase.
pub open spec fn sorted_by_start(s: Seq<ByteRange>) -> bool {
    forall|i: int, j: int| 0 <= i < j < s.len() ==> #[trigger] s[i].start < #[trigger] s[j].start
}

/// Every region runs forwards.
pub open spec fn all_forwards(s: Seq<ByteRange>) -> bool {
    forall|i: int| 0 <= i < s.len() ==> (#[trigger] s[i]).start <= s[i].end
}

/// Inserting `r` into the ordered map `s` from starts to ends: a region with the same start
/// is replaced, any other keeps its place in start order.
pub open spec fn insert_sorted(s: Seq<ByteRange>, r: ByteRange) -> Seq<ByteRange>
    decreases s.len(),
{
    if s.len() == 0 {
        seq![r]
    } else if s[0].start == r.start {
        seq![r] + s.drop_first()
    } else if s[0].start > r.start {
        seq![r] + s
    } else {
        seq![s[0]] + insert_sorted(s.drop_first(), r)
    }
}

/// The ordered map after inserting, member by member, the local CRC-32, data and central
/// CRC-32 regions of each member.
pub open spec fn splits_of(ranges: Seq<FileRanges>) -> Seq<ByteRange>
    decreases ranges.len(),
{
    if ranges.len() == 0 {
        Seq::empty()
    } else {
        let f = ranges.last();
        insert_sorted(insert_sorted(insert_sorted(splits_of(ranges.drop_last()), f.crc32), f.data), f.central_crc32)
    }
}

/// Inserting at the first position whose start is not smaller is what `insert_sorted` does.
proof fn lemma_insert_sorted_at(s: Seq<ByteRange>, r: ByteRange, i: int)
    requires
        sorted_by_start(s),
        0 <= i <= s.len(),
        forall|j: int| 0 <= j < i ==> #[trigger] s[j].start < r.start,
        i < s.len() ==> s[i].start >= r.start,
    ensures
        i < s.len() && s[i].start == r.start ==> insert_sorted(s, r) == s.update(i, r),
        !(i < s.len() && s[i].start == r.start) ==> insert_sorted(s, r) == s.insert(i, r),
    decreases s.len(),
{
    if s.len() == 0 {
        assert(s.insert(i, r) =~= seq![r]);
    } else if i == 0 {
        if s[0].start == r.start {
            assert(seq![r] + s.drop_first() =~= s.update(0, r));
        } else {
            assert(seq![r] + s =~= s.insert(0, r));
        }
    } else {
        let t = s.drop_first();
        assert(sorted_by_start(t)) by {
            assert forall|a: int, b: int| 0 <= a < b < t.len() implies #[trigger] t[a].start < #[trigger] t[b].start by {
                assert(t[a] == s[a + 1] && t[b] == s[b + 1]);
            }
        }
        assert forall|j: int| 0 <= j < i - 1 implies #[trigger] t[j].start < r.start by {
            assert(t[j] == s[j + 1]);
        }
        lemma_insert_sorted_at(t, r, i - 1);
        if i < s.len() && s[i].start == r.start {
            assert(seq![s[0]] + t.update(i - 1, r) =~= s.update(i, r));
        } else {
            assert(seq![s[0]] + t.insert(i - 1, r) =~= s.insert(i, r));
        }
    }
}

/// Inserts `r` into the ordered map `splits`, as a `BTreeMap` insert of `r.start => r.end` does.
pub fn insert_split(splits: &mut Vec<ByteRange>, r: ByteRange)
    requires
        sorted_by_start(old(splits)@),
        all_forwards(old(splits)@),
        r.start <= r.end,
    ensures
        final(splits)@ == insert_sorted(old(splits)@, r),
        sorted_by_start(final(splits)@),
        all_forwards(final(splits)@),
{
    let ghost s = splits@;
    let mut i: usize = 0;
    while i < splits.len() && splits[i].start < r.start
        invariant
            splits@ == s,
            i <= s.len(),
            forall|j: int| 0 <= j < i ==> #[trigger] s[j].start < r.start,
        decreases s.len() - i,
    {
        i += 1;
    }
    proof { lemma_insert_sorted_at(s, r, i as int); }
    if i < splits.len() && splits[i].start == r.start {
        splits.set(i, r);
    } else {
        splits.insert(i, r);
        assert(sorted_by_start(splits@)) by {
            assert forall|a: int, b: int| 0 <= a < b < splits@.len() implies
                #[trigger] splits@[a].start < #[trigger] splits@[b].start by {
                if b < i {
                } else if a < i && b == i {
                } else if a < i {
                    assert(splits@[b] == s[b - 1]);
                } else if a == i {
                    assert(splits@[b] == s[b - 1]);
                } else {
                    assert(splits@[a] == s[a - 1] && splits@[b] == s[b - 1]);
                }
            }
        }
    }
}

// ---------------------------------------------------------------------------------------
// Looking at the entries of the archive one by one.

/// The names of the entries sorted into viewable members, directories, compressed and
/// encrypted entries, and the regions of each viewable member in index order.
pub struct MutPlan {
    pub names: Seq<Seq<char>>,
    pub directory_names: Seq<Seq<char>>,
    pub compressed_names: Seq<Seq<char>>,
    pub encrypted_names: Seq<Seq<char>>,
    pub ranges: Seq<FileRanges>,
}

/// Before any entry has been looked at, every entry counts as encrypted.
pub open spec fn plan_start(entries: Seq<(Seq<char>, EntryOutcome)>) -> MutPlan {
    MutPlan {
        names: Seq::empty(),
        directory_names: Seq::empty(),
        compressed_names: Seq::empty(),
        encrypted_names: entries.map_values(|e: (Seq<char>, EntryOutcome)| e.0),
        ranges: Seq::empty(),
    }
}

/// The plan after looking at one more entry.
pub open spec fn plan_step(bytes: Seq<u8>, p: MutPlan, entry: (Seq<char>, EntryOutcome)) -> Stage<MutPlan> {
    match entry.1 {
        EntryOutcome::Encrypted => Stage::Done(p),
        EntryOutcome::Unreadable => Stage::Fail(ErrorKind::Zip(ZipFault::Archive)),
        EntryOutcome::Readable(f) => {
            let encrypted = p.encrypted_names.remove_value(entry.0);
            if f.is_dir {
                Stage::Done(MutPlan {
                    names: p.names,
                    directory_names: p.directory_names.push(entry.0),
                    compressed_names: p.compressed_names,
                    encrypted_names: encrypted,
                    ranges: p.ranges,
                })
            } else if !f.stored {
                Stage::Done(MutPlan {
                    names: p.names,
                    directory_names: p.directory_names,
                    compressed_names: p.compressed_names.push(entry.0),
                    encrypted_names: encrypted,
                    ranges: p.ranges,
                })
            } else {
                match plan_file(bytes, f) {
                    Stage::Stuck => Stage::Stuck,
                    Stage::Fail(k) => Stage::Fail(k),
                    Stage::Done(r) => Stage::Done(MutPlan {
                        names: p.names.push(entry.0),
                        directory_names: p.directory_names,
                        compressed_names: p.compressed_names,
                        encrypted_names: encrypted,
                        ranges: p.ranges.push(r),
                    }),
                }
            }
        },
    }
}

/// The plan after looking at the first `n` entries in order, or how it ended before.
pub open spec fn plan_scan(bytes: Seq<u8>, entries: Seq<(Seq<char>, EntryOutcome)>, n: nat) -> Stage<MutPlan>
    decreases n,
{
    if n == 0 {
        Stage::Done(plan_start(entries))
    } else {
        match plan_scan(bytes, entries, (n - 1) as nat) {
            Stage::Stuck => Stage::Stuck,
            Stage::Fail(k) => Stage::Fail(k),
            Stage::Done(p) => plan_step(bytes, p, entries[n - 1]),
        }
    }
}

/// Once the plan has ended early, looking at more entries does not change how it ended.
pub proof fn lemma_plan_scan_end_persists(bytes: Seq<u8>, entries: Seq<(Seq<char>, EntryOutcome)>, i: nat, n: nat)
    requires
        i <= n,
        !(plan_scan(bytes, entries, i) is Done),
    ensures
        plan_scan(bytes, entries, n) == plan_scan(bytes, entries, i),
    decreases n - i,
{
    if i < n {
        lemma_plan_scan_end_persists(bytes, entries, i, (n - 1) as nat);
    }
}

/// The exec counterpart of [`MutPlan`].
pub struct EntryPlan {
    pub names: Vec<String>,
    pub directory_names: Vec<String>,
    pub compressed_names: Vec<String>,
    pub encrypted_names: Vec<String>,
    pub ranges: Vec<FileRanges>,
}

impl View for EntryPlan {
    type V = MutPlan;

    open spec fn view(&self) -> MutPlan {
        MutPlan {
            names: strings(self.names@),
            directory_names: strings(self.directory_names@),
            compressed_names: strings(self.compressed_names@),
            encrypted_names: strings(self.encrypted_names@),
            ranges: self.ranges@,
        }
    }
}

/// How looking at all entries ended.
pub enum PlanOutcome {
    Stuck,
    Failed(ViewNpzError),
    Planned(EntryPlan),
}

/// Sorts the entries of `listing` and computes the regions of each viewable member.
pub fn plan_entries(bytes: &[u8], listing: Listing) -> (res: PlanOutcome)
    requires
        listing.wf(),
        central_headers_within(listing@, bytes@.len() as int),
    ensures
        match plan_scan(bytes@, listing@, listing@.len()) {
            Stage::Stuck => res is Stuck,
            Stage::Fail(k) => res matches PlanOutcome::Failed(e) && e@ == k,
            Stage::Done(p) => res matches PlanOutcome::Planned(q) && q@ == p,
        },
        res matches PlanOutcome::Failed(e) ==> (e@ == ErrorKind::Zip(ZipFault::Archive) ==> e matches ViewNpzError::Zip(ZipFault::Archive, Some(_))),
        res matches PlanOutcome::Planned(q) ==> {
            &&& q.names@.len() == q.ranges@.len()
            &&& q@.names.no_duplicates()
            &&& forall|j: int| 0 <= j < q.ranges@.len() ==> forwards(#[trigger] q.ranges@[j])
        },
{
    let ghost entries = listing@;
    let Listing { names: all_names, lookups: mut lookups } = listing;
    let n = lookups.len();
    let mut plan = EntryPlan {
        names: Vec::new(),
        directory_names: Vec::new(),
        compressed_names: Vec::new(),
        encrypted_names: all_names,
        ranges: Vec::new(),
    };
    assert(plan@ == plan_start(entries)) by {
        assert(strings(plan.encrypted_names@) =~= entries.map_values(|e: (Seq<char>, EntryOutcome)| e.0));
        assert(strings(plan.names@) =~= Seq::empty());
        assert(strings(plan.directory_names@) =~= Seq::empty());
        assert(strings(plan.compressed_names@) =~= Seq::empty());
    }
    let mut i: usize = 0;
    while i < n
        invariant
            entries == listing@,
            n == lookups@.len(),
            n == entries.len(),
            i <= n,
            forall|j: int| 0 <= j < n ==> (#[trigger] lookups@[j])@ == entries[j].1,
            forall|j: int| 0 <= j < n ==> match #[trigger] lookups@[j] {
                EntryLookup::Opened(m) => m.name@ == entries[j].0,
                _ => true,
            },
            names_distinct(entries),
            central_headers_within(entries, bytes@.len() as int),
            plan_scan(bytes@, entries, i as nat) == Stage::Done(plan@),
            plan.names@.len() == plan.ranges@.len(),
            strings(plan.names@).no_duplicates(),
            forall|j: int| 0 <= j < plan.ranges@.len() ==> forwards(#[trigger] plan.ranges@[j]),
            forall|j: int| 0 <= j < plan.names@.len() ==>
                exists|k: int| 0 <= k < i && entries[k].0 == #[trigger] strings(plan.names@)[j],
        decreases n - i,
    {
        let failed = match &lookups[i] {
            EntryLookup::Failed(_) => true,
            _ => false,
        };
        if failed {
            match lookups.swap_remove(i) {
                EntryLookup::Failed(err) => {
                    proof {
                        assert(plan_scan(bytes@, entries, (i + 1) as nat) == Stage::<MutPlan>::Fail(ErrorKind::Zip(ZipFault::Archive)));
                        lemma_plan_scan_end_persists(bytes@, entries, (i + 1) as nat, n as nat);
                    }
                    return PlanOutcome::Failed(ViewNpzError::archive(err));
                },
                _ => return PlanOutcome::Failed(ViewNpzError::fault(ZipFault::Archive)),
            }
        }
        let ghost prev = plan@;
        match &lookups[i] {
            EntryLookup::Opened(meta) => {
                let name = meta.name.clone();
                let facts = meta.facts;
                assert(facts.central_header_start + 46 <= bytes@.len()) by {
                    assert(entries[i as int].1 == EntryOutcome::Readable(facts));
                }
                remove_first(&mut plan.encrypted_names, &name);
                if facts.is_dir {
                    plan.directory_names.push(name);
                    assert(strings(plan.directory_names@) =~= prev.directory_names.push(name@));
                } else if !facts.stored {
                    plan.compressed_names.push(name);
                    assert(strings(plan.compressed_names@) =~= prev.compressed_names.push(name@));
                } else {
                    match plan_file_ranges(bytes, facts) {
                        FilePlan::Stuck => {
                            proof {
                                assert(plan_scan(bytes@, entries, (i + 1) as nat) == plan_step(bytes@, prev, entries[i as int]));
                                lemma_plan_scan_end_persists(bytes@, entries, (i + 1) as nat, n as nat);
                            }
                            return PlanOutcome::Stuck;
                        },
                        FilePlan::Fault(x) => {
                            proof {
                                assert(plan_scan(bytes@, entries, (i + 1) as nat) == plan_step(bytes@, prev, entries[i as int]));
                                lemma_plan_scan_end_persists(bytes@, entries, (i + 1) as nat, n as nat);
                            }
                            return PlanOutcome::Failed(ViewNpzError::fault(x));
                        },
                        FilePlan::Ranges(r) => {
                            proof {
                                assert forall|j: int| 0 <= j < prev.names.len() implies prev.names[j] != name@ by {
                                    let k = choose|k: int| 0 <= k < i && entries[k].0 == #[trigger] strings(plan.names@)[j];
                                    assert(entries[k].0 != entries[i as int].0);
                                }
                            }
                            plan.names.push(name);
                            plan.ranges.push(r);
                            assert(strings(plan.names@) =~= prev.names.push(name@));
                        },
                    }
                }
            },
            _ => {},
        }
        proof {
            assert(plan_scan(bytes@, entries, (i + 1) as nat) == plan_step(bytes@, prev, entries[i as int]));
            assert forall|j: int| 0 <= j < plan.names@.len() implies
                exists|k: int| 0 <= k < i + 1 && entries[k].0 == #[trigger] strings(plan.names@)[j] by {
                if j < prev.names.len() {
                    let k = choose|k: int| 0 <= k < i && entries[k].0 == #[trigger] prev.names[j];
                    assert(entries[k].0 == strings(plan.names@)[j]);
                } else {
                    assert(entries[i as int].0 == strings(plan.names@)[j]);
                }
            }
        }
        i += 1;
    }
    PlanOutcome::Planned(plan)
}

// ---------------------------------------------------------------------------------------
// The ordered map of all regions, and cutting the buffer along it.

/// Builds the ordered map of the regions of all members, as `splits_of` describes it.
pub fn build_splits(ranges: &Vec<FileRanges>) -> (s: Vec<ByteRange>)
    requires
        forall|j: int| 0 <= j < ranges@.len() ==> forwards(#[trigger] ranges@[j]),
    ensures
        s@ == splits_of(ranges@),
        sorted_by_start(s@),
        all_forwards(s@),
{
    let mut s: Vec<ByteRange> = Vec::new();
    let mut i: usize = 0;
    assert(ranges@.subrange(0, 0) =~= Seq::<FileRanges>::empty());
    while i < ranges.len()
        invariant
            i <= ranges@.len(),
            forall|j: int| 0 <= j < ranges@.len() ==> forwards(#[trigger] ranges@[j]),
            s@ == splits_of(ranges@.subrange(0, i as int)),
            sorted_by_start(s@),
            all_forwards(s@),
        decreases ranges@.len() - i,
    {
        let f = ranges[i];
        assert(forwards(f));
        insert_split(&mut s, f.crc32);
        insert_split(&mut s, f.data);
        insert_split(&mut s, f.central_crc32);
        assert(ranges@.subrange(0, i + 1).drop_last() =~= ranges@.subrange(0, i as int));
        assert(ranges@.subrange(0, i + 1).last() == f);
        i += 1;
    }
    assert(ranges@.subrange(0, ranges@.len() as int) =~= ranges@);
    s
}

/// The first fault met when cutting a buffer of `n` bytes along the ordered regions `s`,
/// from the `i`-th region on, the previous cut having ended at `offset`.
pub open spec fn split_fault(s: Seq<ByteRange>, n: int, i: nat, offset: int) -> Option<ZipFault>
    decreases s.len() - i,
{
    if i >= s.len() {
        None
    } else if s[i as int].start < offset {
        Some(ZipFault::OverlappingRanges)
    } else if s[i as int].start > n {
        Some(ZipFault::OffsetExceedsEof)
    } else if s[i as int].end > n {
        Some(ZipFault::LengthExceedsEof)
    } else {
        split_fault(s, n, i + 1, s[i as int].end as int)
    }
}

/// The ordered regions follow each other without overlap and end within `n` bytes.
pub open spec fn cuttable(s: Seq<ByteRange>, n: int) -> bool {
    &&& all_forwards(s)
    &&& forall|j: int| 0 <= j < s.len() ==> (#[trigger] s[j]).end <= n
    &&& forall|j: int| 0 < j < s.len() ==> s[j - 1].end <= (#[trigger] s[j]).start
}

/// Checks that the buffer of `n` bytes can be cut along the ordered regions `s`.
pub fn check_splits(s: &Vec<ByteRange>, n: usize) -> (res: Result<(), ZipFault>)
    requires
        all_forwards(s@),
    ensures
        match split_fault(s@, n as int, 0, 0) {
            None => res is Ok,
            Some(f) => res == Err::<(), ZipFault>(f),
        },
        res is Ok ==> cuttable(s@, n as int),
        res != Err::<(), ZipFault>(ZipFault::Archive),
{
    let mut offset: usize = 0;
    let mut i: usize = 0;
    while i < s.len()
        invariant
            i <= s@.len(),
            all_forwards(s@),
            split_fault(s@, n as int, 0, 0) == split_fault(s@, n as int, i as nat, offset as int),
            i == 0 ==> offset == 0,
            i > 0 ==> offset == s@[i - 1].end,
            forall|j: int| 0 <= j < i ==> (#[trigger] s@[j]).end <= n,
            forall|j: int| 0 < j < i ==> s@[j - 1].end <= (#[trigger] s@[j]).start,
        decreases s@.len() - i,
    {
        let r = s[i];
        if r.start < offset {
            return Err(ZipFault::OverlappingRanges);
        }
        if r.start > n {
            return Err(ZipFault::OffsetExceedsEof);
        }
        if r.end > n {
            return Err(ZipFault::LengthExceedsEof);
        }
        offset = r.end;
        i += 1;
    }
    Ok(())
}

// ---------------------------------------------------------------------------------------
// Handing the pieces of the buffer to the members.

/// The index of the region that starts at `start`.
pub open spec fn position_of(s: Seq<ByteRange>, start: usize) -> Option<int> {
    if exists|i: int| 0 <= i < s.len() && s[i].start == start {
        Some(choose|i: int| 0 <= i < s.len() && s[i].start == start)
    } else {
        None
    }
}

/// Claiming the region that starts at `start`, the regions at the positions `taken` being
/// gone already. A CRC-32 region must be four bytes long.
pub open spec fn claim(s: Seq<ByteRange>, taken: Set<int>, start: usize, crc: bool) -> Stage<int> {
    match position_of(s, start) {
        None => Stage::Fail(ErrorKind::Zip(ZipFault::AmbiguousOffsets)),
        Some(p) => if taken.contains(p) {
            Stage::Fail(ErrorKind::Zip(ZipFault::AmbiguousOffsets))
        } else if crc && s[p].end - s[p].start != 4 {
            Stage::Stuck
        } else {
            Stage::Done(p)
        },
    }
}

/// The positions, in the ordered map of regions, of the three pieces of one member.
#[derive(Clone, Copy, Debug, PartialEq, Eq, Structural)]
pub struct Slots {
    pub data: usize,
    pub crc32: usize,
    pub central_crc32: usize,
}

/// Claiming the data, local CRC-32 and central CRC-32 pieces of one more member.
pub open spec fn assemble_step(s: Seq<ByteRange>, acc: (Seq<Slots>, Set<int>), f: FileRanges) -> Stage<(Seq<Slots>, Set<int>)> {
    let slots = acc.0;
    let taken = acc.1;
    match claim(s, taken, f.data.start, false) {
        Stage::Stuck => Stage::Stuck,
        Stage::Fail(k) => Stage::Fail(k),
        Stage::Done(d) => match claim(s, taken.insert(d), f.crc32.start, true) {
            Stage::Stuck => Stage::Stuck,
            Stage::Fail(k) => Stage::Fail(k),
            Stage::Done(c) => match claim(s, taken.insert(d).insert(c), f.central_crc32.start, true) {
                Stage::Stuck => Stage::Stuck,
                Stage::Fail(k) => Stage::Fail(k),
                Stage::Done(z) => Stage::Done((
                    slots.push(Slots { data: d as usize, crc32: c as usize, central_crc32: z as usize }),
                    taken.insert(d).insert(c).insert(z),
                )),
            },
        },
    }
}

/// Claiming the pieces of the first `n` members in index order.
pub open spec fn assemble_scan(s: Seq<ByteRange>, ranges: Seq<FileRanges>, n: nat) -> Stage<(Seq<Slots>, Set<int>)>
    decreases n,
{
    if n == 0 {
        Stage::Done((Seq::empty(), Set::empty()))
    } else {
        match assemble_scan(s, ranges, (n - 1) as nat) {
            Stage::Stuck => Stage::Stuck,
            Stage::Fail(k) => Stage::Fail(k),
            Stage::Done(acc) => assemble_step(s, acc, ranges[n - 1]),
        }
    }
}

/// Once claiming has ended early, claiming for more members does not change how it ended.
pub proof fn lemma_assemble_scan_end_persists(s: Seq<ByteRange>, ranges: Seq<FileRanges>, i: nat, n: nat)
    requires
        i <= n,
        !(assemble_scan(s, ranges, i) is Done),
    ensures
        assemble_scan(s, ranges, n) == assemble_scan(s, ranges, i),
    decreases n - i,
{
    if i < n {
        lemma_assemble_scan_end_persists(s, ranges, i, (n - 1) as nat);
    }
}

/// One member's pieces are three different regions of the map, the CRC-32 ones four bytes long.
pub open spec fn slot_within(sl: Slots, s: Seq<ByteRange>) -> bool {
    &&& sl.data < s.len()
    &&& sl.crc32 < s.len()
    &&& sl.central_crc32 < s.len()
    &&& sl.data != sl.crc32
    &&& sl.data != sl.central_crc32
    &&& sl.crc32 != sl.central_crc32
    &&& s[sl.crc32 as int].end - s[sl.crc32 as int].start == 4
    &&& s[sl.central_crc32 as int].end - s[sl.central_crc32 as int].start == 4
}

/// Two members share no piece.
pub open spec fn slots_apart(a: Slots, b: Slots) -> bool {
    &&& a.data != b.data && a.data != b.crc32 && a.data != b.central_crc32
    &&& a.crc32 != b.data && a.crc32 != b.crc32 && a.crc32 != b.central_crc32
    &&& a.central_crc32 != b.data && a.central_crc32 != b.crc32 && a.central_crc32 != b.central_crc32
}

/// Every member has its own three pieces.
pub open spec fn slots_ok(slots: Seq<Slots>, s: Seq<ByteRange>) -> bool {
    &&& forall|k: int| 0 <= k < slots.len() ==> slot_within(#[trigger] slots[k], s)
    &&& forall|a: int, b: int| 0 <= a < slots.len() && 0 <= b < slots.len() && a != b
        ==> slots_apart(#[trigger] slots[a], #[trigger] slots[b])
}

/// The positions marked in `t`.
pub open spec fn taken_set(t: Seq<bool>) -> Set<int> {
    Set::new(|j: int| 0 <= j < t.len() && t[j])
}

/// How claiming one piece ended.
pub enum Claim {
    Stuck,
    Ambiguous,
    At(usize),
}

/// Finds the region of the ordered map `s` that starts at `start`.
pub fn find_position(s: &Vec<ByteRange>, start: usize) -> (res: Option<usize>)
    requires
        sorted_by_start(s@),
    ensures
        res matches Some(i) ==> position_of(s@, start) == Some(i as int) && i < s@.len(),
        res is None ==> position_of(s@, start) is None,
{
    let mut i: usize = 0;
    while i < s.len()
        invariant
            i <= s@.len(),
            sorted_by_start(s@),
            forall|j: int| 0 <= j < i ==> (#[trigger] s@[j]).start != start,
        decreases s@.len() - i,
    {
        if s[i].start == start {
            assert(s@[i as int].start == start);
            let ghost p = choose|j: int| 0 <= j < s@.len() && s@[j].start == start;
            assert(p == i as int) by {
                if p < i as int {
                    assert(s@[p].start < s@[i as int].start);
                } else if p > i as int {
                    assert(s@[i as int].start < s@[p].start);
                }
            }
            return Some(i);
        }
        i += 1;
    }
    None
}

/// Claims the region that starts at `start`, unless the positions marked in `taken` hold it.
pub fn claim_piece(s: &Vec<ByteRange>, taken: &Vec<bool>, start: usize, crc: bool) -> (res: Claim)
    requires
        sorted_by_start(s@),
        all_forwards(s@),
        taken@.len() == s@.len(),
    ensures
        match claim(s@, taken_set(taken@), start, crc) {
            Stage::Stuck => res is Stuck,
            Stage::Fail(k) => res is Ambiguous && k == ErrorKind::Zip(ZipFault::AmbiguousOffsets),
            Stage::Done(p) => res matches Claim::At(i) && i as int == p && i < s@.len(),
        },
{
    match find_position(s, start) {
        None => Claim::Ambiguous,
        Some(p) => {
            if taken[p] {
                assert(taken_set(taken@).contains(p as int));
                Claim::Ambiguous
            } else {
                assert(!taken_set(taken@).contains(p as int));
                if crc && s[p].end - s[p].start != 4 {
                    Claim::Stuck
                } else {
                    Claim::At(p)
                }
            }
        },
    }
}

/// How handing the pieces to the members ended.
pub enum Assembled {
    Stuck,
    Ambiguous,
    Slotted(Vec<Slots>),
}

/// Hands the pieces of the ordered map `s` to the members with the regions `ranges`.
pub fn assemble(s: &Vec<ByteRange>, ranges: &Vec<FileRanges>) -> (res: Assembled)
    requires
        sorted_by_start(s@),
        all_forwards(s@),
    ensures
        match assemble_scan(s@, ranges@, ranges@.len()) {
            Stage::Stuck => res is Stuck,
            Stage::Fail(k) => res is Ambiguous && k == ErrorKind::Zip(ZipFault::AmbiguousOffsets),
            Stage::Done(acc) => res matches Assembled::Slotted(v) && v@ == acc.0,
        },
        res matches Assembled::Slotted(v) ==> slots_ok(v@, s@) && v@.len() == ranges@.len(),
{
    let n = s.len();
    let mut taken: Vec<bool> = Vec::new();
    let mut j: usize = 0;
    while j < n
        invariant
            n == s@.len(),
            j <= n,
            taken@.len() == j,
            forall|q: int| 0 <= q < j ==> !(#[trigger] taken@[q]),
        decreases n - j,
    {
        taken.push(false);
        j += 1;
    }
    assert(taken_set(taken@) =~= Set::<int>::empty());
    let mut slots: Vec<Slots> = Vec::new();
    let mut k: usize = 0;
    while k < ranges.len()
        invariant
            n == s@.len(),
            sorted_by_start(s@),
            all_forwards(s@),
            taken@.len() == n,
            k <= ranges@.len(),
            assemble_scan(s@, ranges@, k as nat) == Stage::Done((slots@, taken_set(taken@))),
            slots@.len() == k,
            slots_ok(slots@, s@),
            forall|a: int| 0 <= a < slots@.len() ==> {
                &&& taken_set(taken@).contains((#[trigger] slots@[a]).data as int)
                &&& taken_set(taken@).contains(slots@[a].crc32 as int)
                &&& taken_set(taken@).contains(slots@[a].central_crc32 as int)
            },
        decreases ranges@.len() - k,
    {
        let f = ranges[k];
        let ghost t0 = taken_set(taken@);
        assert(assemble_scan(s@, ranges@, (k + 1) as nat) == assemble_step(s@, (slots@, t0), f));
        let d = match claim_piece(s, &taken, f.data.start, false) {
            Claim::At(p) => p,
            Claim::Stuck => {
                proof { lemma_assemble_scan_end_persists(s@, ranges@, (k + 1) as nat, ranges@.len()); }
                return Assembled::Stuck;
            },
            Claim::Ambiguous => {
                proof { lemma_assemble_scan_end_persists(s@, ranges@, (k + 1) as nat, ranges@.len()); }
                return Assembled::Ambiguous;
            },
        };
        taken.set(d, true);
        assert(taken_set(taken@) =~= t0.insert(d as int));
        let c = match claim_piece(s, &taken, f.crc32.start, true) {
            Claim::At(p) => p,
            Claim::Stuck => {
                proof { lemma_assemble_scan_end_persists(s@, ranges@, (k + 1) as nat, ranges@.len()); }
                return Assembled::Stuck;
            },
            Claim::Ambiguous => {
                proof { lemma_assemble_scan_end_persists(s@, ranges@, (k + 1) as nat, ranges@.len()); }
                return Assembled::Ambiguous;
            },
        };
        taken.set(c, true);
        assert(taken_set(taken@) =~= t0.insert(d as int).insert(c as int));
        let z = match claim_piece(s, &taken, f.central_crc32.start, true) {
            Claim::At(p) => p,
            Claim::Stuck => {
                proof { lemma_assemble_scan_end_persists(s@, ranges@, (k + 1) as nat, ranges@.len()); }
                return Assembled::Stuck;
            },
            Claim::Ambiguous => {
                proof { lemma_assemble_scan_end_persists(s@, ranges@, (k + 1) as nat, ranges@.len()); }
                return Assembled::Ambiguous;
            },
        };
        taken.set(z, true);
        assert(taken_set(taken@) =~= t0.insert(d as int).insert(c as int).insert(z as int));
        let ghost prev = slots@;
        let sl = Slots { data: d, crc32: c, central_crc32: z };
        slots.push(sl);
        proof {
            assert(slot_within(sl, s@));
            assert forall|a: int, b: int| 0 <= a < slots@.len() && 0 <= b < slots@.len() && a != b
                implies slots_apart(#[trigger] slots@[a], #[trigger] slots@[b]) by {
                if a < prev.len() && b < prev.len() {
                    assert(slots@[a] == prev[a] && slots@[b] == prev[b]);
                } else if a < prev.len() {
                    assert(slots@[a] == prev[a]);
                    assert(t0.contains(prev[a].data as int));
                    assert(t0.contains(prev[a].crc32 as int));
                    assert(t0.contains(prev[a].central_crc32 as int));
                } else {
                    assert(slots@[b] == prev[b]);
                    assert(t0.contains(prev[b].data as int));
                    assert(t0.contains(prev[b].crc32 as int));
                    assert(t0.contains(prev[b].central_crc32 as int));
                }
            }
            assert forall|a: int| 0 <= a < slots@.len() implies {
                &&& taken_set(taken@).contains((#[trigger] slots@[a]).data as int)
                &&& taken_set(taken@).contains(slots@[a].crc32 as int)
                &&& taken_set(taken@).contains(slots@[a].central_crc32 as int)
            } by {
                if a < prev.len() {
                    assert(slots@[a] == prev[a]);
                }
            }
        }
        k += 1;
    }
    Assembled::Slotted(slots)
}

// ---------------------------------------------------------------------------------------
// The whole layout.

/// Where everything of a mutable view lies: the sorted names, the ordered map of regions
/// along which the buffer is cut, and the positions of each member's three pieces in it.
pub struct LayoutModel {
    pub names: Seq<Seq<char>>,
    pub directory_names: Seq<Seq<char>>,
    pub compressed_names: Seq<Seq<char>>,
    pub encrypted_names: Seq<Seq<char>>,
    pub splits: Seq<ByteRange>,
    pub slots: Seq<Slots>,
}

/// The layout of the archive `bytes` with the entries `entries`: plan every entry in order,
/// check that the buffer can be cut along the regions, then hand the pieces out.
pub open spec fn layout_of(bytes: Seq<u8>, entries: Seq<(Seq<char>, EntryOutcome)>) -> Stage<LayoutModel> {
    match plan_scan(bytes, entries, entries.len()) {
        Stage::Stuck => Stage::Stuck,
        Stage::Fail(k) => Stage::Fail(k),
        Stage::Done(p) => {
            let s = splits_of(p.ranges);
            match split_fault(s, bytes.len() as int, 0, 0) {
                Some(f) => Stage::Fail(ErrorKind::Zip(f)),
                None => match assemble_scan(s, p.ranges, p.ranges.len()) {
                    Stage::Stuck => Stage::Stuck,
                    Stage::Fail(k) => Stage::Fail(k),
                    Stage::Done(acc) => Stage::Done(LayoutModel {
                        names: p.names,
                        directory_names: p.directory_names,
                        compressed_names: p.compressed_names,
                        encrypted_names: p.encrypted_names,
                        splits: s,
                        slots: acc.0,
                    }),
                },
            }
        },
    }
}

/// The exec counterpart of [`LayoutModel`].
pub struct Layout {
    pub names: Vec<String>,
    pub directory_names: Vec<String>,
    pub compressed_names: Vec<String>,
    pub encrypted_names: Vec<String>,
    pub splits: Vec<ByteRange>,
    pub slots: Vec<Slots>,
}

impl View for Layout {
    type V = LayoutModel;

    open spec fn view(&self) -> LayoutModel {
        LayoutModel {
            names: strings(self.names@),
            directory_names: strings(self.directory_names@),
            compressed_names: strings(self.compressed_names@),
            encrypted_names: strings(self.encrypted_names@),
            splits: self.splits@,
            slots: self.slots@,
        }
    }
}

/// How computing the layout ended.
pub enum LayoutOutcome {
    /// Reading a local CRC-32 would reach beyond the buffer, or a CRC-32 piece would not be
    /// four bytes long.
    Stuck,
    Failed(ViewNpzError),
    Planned(Layout),
}

/// Computes the layout of the archive `bytes` with the entries `listing`.
pub fn plan_layout(bytes: &[u8], listing: Listing) -> (res: LayoutOutcome)
    requires
        listing.wf(),
        central_headers_within(listing@, bytes@.len() as int),
    ensures
        match layout_of(bytes@, listing@) {
            Stage::Stuck => res is Stuck,
            Stage::Fail(k) => res matches LayoutOutcome::Failed(e) && e@ == k,
            Stage::Done(m) => res matches LayoutOutcome::Planned(l) && l@ == m,
        },
        res matches LayoutOutcome::Failed(e) ==> (e@ == ErrorKind::Zip(ZipFault::Archive) ==> e matches ViewNpzError::Zip(ZipFault::Archive, Some(_))),
        res matches LayoutOutcome::Planned(l) ==> {
            &&& l.names@.len() == l.slots@.len()
            &&& l@.names.no_duplicates()
            &&& sorted_by_start(l.splits@)
            &&& cuttable(l.splits@, bytes@.len() as int)
            &&& slots_ok(l.slots@, l.splits@)
        },
{
    let ghost entries = listing@;
    let plan = match plan_entries(bytes, listing) {
        PlanOutcome::Stuck => return LayoutOutcome::Stuck,
        PlanOutcome::Failed(e) => return LayoutOutcome::Failed(e),
        PlanOutcome::Planned(p) => p,
    };
    let splits = build_splits(&plan.ranges);
    match check_splits(&splits, bytes.len()) {
        Ok(()) => {},
        Err(f) => return LayoutOutcome::Failed(ViewNpzError::fault(f)),
    }
    let slots = match assemble(&splits, &plan.ranges) {
        Assembled::Stuck => return LayoutOutcome::Stuck,
        Assembled::Ambiguous => return LayoutOutcome::Failed(ViewNpzError::fault(ZipFault::AmbiguousOffsets)),
        Assembled::Slotted(v) => v,
    };
    let EntryPlan { names, directory_names, compressed_names, encrypted_names, ranges: _ } = plan;
    LayoutOutcome::Planned(Layout { names, directory_names, compressed_names, encrypted_names, splits, slots })
}

// ---------------------------------------------------------------------------------------
// Properties of the layout.

/// A region computed for a member runs forwards.
pub proof fn lemma_plan_file_forwards(bytes: Seq<u8>, f: EntryFacts)
    ensures
        plan_file(bytes, f) matches Stage::Done(r) ==> forwards(r),
{
}

/// Every region of a plan runs forwards.
pub proof fn lemma_plan_scan_forwards(bytes: Seq<u8>, entries: Seq<(Seq<char>, EntryOutcome)>, n: nat)
    ensures
        plan_scan(bytes, entries, n) matches Stage::Done(p) ==>
            forall|j: int| 0 <= j < p.ranges.len() ==> forwards(#[trigger] p.ranges[j]),
    decreases n,
{
    if n > 0 {
        lemma_plan_scan_forwards(bytes, entries, (n - 1) as nat);
        if let Stage::Done(p) = plan_scan(bytes, entries, (n - 1) as nat) {
            if let EntryOutcome::Readable(f) = entries[n - 1].1 {
                lemma_plan_file_forwards(bytes, f);
            }
            if let Stage::Done(q) = plan_scan(bytes, entries, n) {
                assert forall|j: int| 0 <= j < q.ranges.len() implies forwards(#[trigger] q.ranges[j]) by {
                    if j < p.ranges.len() {
                        assert(q.ranges[j] == p.ranges[j]);
                    }
                }
            }
        }
    }
}

/// Inserting into the ordered map keeps it ordered and forwards.
#[verifier::spinoff_prover]
#[verifier::rlimit(50)]
pub proof fn lemma_insert_sorted_keeps_order(s: Seq<ByteRange>, r: ByteRange)
    requires
        sorted_by_start(s),
        all_forwards(s),
        r.start <= r.end,
    ensures
        sorted_by_start(insert_sorted(s, r)),
        all_forwards(insert_sorted(s, r)),
        insert_sorted(s, r).len() <= s.len() + 1,
{
    let i = if exists|j: int| 0 <= j < s.len() && s[j].start >= r.start {
        choose|j: int| 0 <= j < s.len() && s[j].start >= r.start && forall|q: int| 0 <= q < j ==> #[trigger] s[q].start < r.start
    } else {
        s.len() as int
    };
    if exists|j: int| 0 <= j < s.len() && s[j].start >= r.start {
        let w = choose|j: int| 0 <= j < s.len() && s[j].start >= r.start;
        lemma_first_at_least(s, r.start, w);
    }
    assert(0 <= i <= s.len());
    assert(forall|q: int| 0 <= q < i ==> #[trigger] s[q].start < r.start);
    lemma_insert_sorted_at(s, r, i);
    let t = insert_sorted(s, r);
    if i < s.len() && s[i].start == r.start {
        assert(t == s.update(i, r));
    } else {
        assert(t == s.insert(i, r));
        assert forall|a: int, b: int| 0 <= a < b < t.len() implies #[trigger] t[a].start < #[trigger] t[b].start by {
            if b < i {
            } else if a < i && b == i {
            } else if a < i {
                assert(t[b] == s[b - 1]);
            } else if a == i {
                assert(t[b] == s[b - 1]);
            } else {
                assert(t[a] == s[a - 1] && t[b] == s[b - 1]);
            }
        }
        assert forall|a: int| 0 <= a < t.len() implies (#[trigger] t[a]).start <= t[a].end by {
            if a < i {
            } else if a == i {
            } else {
                assert(t[a] == s[a - 1]);
            }
        }
    }
}

/// In an ordered sequence, some position holds the first start not below `x`.
proof fn lemma_first_at_least(s: Seq<ByteRange>, x: usize, w: int)
    requires
        0 <= w < s.len(),
        s[w].start >= x,
    ensures
        exists|j: int| 0 <= j < s.len() && s[j].start >= x && forall|q: int| 0 <= q < j ==> #[trigger] s[q].start < x,
    decreases w,
{
    if exists|q: int| 0 <= q < w && s[q].start >= x {
        let q = choose|q: int| 0 <= q < w && s[q].start >= x;
        lemma_first_at_least(s, x, q);
    } else {
        assert(forall|q: int| 0 <= q < w ==> #[trigger] s[q].start < x);
    }
}

/// The ordered map of a plan's regions is ordered and forwards.
pub proof fn lemma_splits_of_order(ranges: Seq<FileRanges>)
    requires
        forall|j: int| 0 <= j < ranges.len() ==> forwards(#[trigger] ranges[j]),
    ensures
        sorted_by_start(splits_of(ranges)),
        all_forwards(splits_of(ranges)),
    decreases ranges.len(),
{
    if ranges.len() > 0 {
        let rest = ranges.drop_last();
        assert forall|j: int| 0 <= j < rest.len() implies forwards(#[trigger] rest[j]) by {
            assert(rest[j] == ranges[j]);
        }
        lemma_splits_of_order(rest);
        let f = ranges.last();
        assert(forwards(ranges[ranges.len() - 1]));
        let s0 = splits_of(rest);
        lemma_insert_sorted_keeps_order(s0, f.crc32);
        let s1 = insert_sorted(s0, f.crc32);
        lemma_insert_sorted_keeps_order(s1, f.data);
        let s2 = insert_sorted(s1, f.data);
        lemma_insert_sorted_keeps_order(s2, f.central_crc32);
    }
}

/// Cutting succeeds from the `i`-th region on exactly where every later region starts at or
/// after the previous end and ends within the buffer.
pub proof fn lemma_split_fault_none(s: Seq<ByteRange>, n: int, i: nat, offset: int)
    requires
        all_forwards(s),
        split_fault(s, n, i, offset) is None,
        i <= s.len(),
    ensures
        forall|j: int| i <= j < s.len() ==> (#[trigger] s[j]).end <= n,
        i < s.len() ==> offset <= s[i as int].start,
        forall|j: int| i < j < s.len() ==> s[j - 1].end <= (#[trigger] s[j]).start,
    decreases s.len() - i,
{
    if i < s.len() {
        lemma_split_fault_none(s, n, i + 1, s[i as int].end as int);
    }
}

/// Regions that follow each other without overlap are pairwise apart.
pub proof fn lemma_cuttable_apart(s: Seq<ByteRange>, n: int, p: int, q: int)
    requires
        cuttable(s, n),
        0 <= p < q < s.len(),
    ensures
        s[p].end <= s[q].start,
    decreases q - p,
{
    if p + 1 < q {
        lemma_cuttable_apart(s, n, p, q - 1);
        assert(s[q - 1].start <= s[q - 1].end);
    }
}

/// The buffer `orig` with the ordered regions `s` replaced by `contents`, the bytes between
/// and around them kept.
#[verifier::opaque]
pub open spec fn spliced(orig: Seq<u8>, s: Seq<ByteRange>, contents: Seq<Seq<u8>>) -> Seq<u8>
    decreases s.len(),
{
    if s.len() == 0 {
        orig
    } else {
        let r = s.last();
        spliced(orig.subrange(0, r.start as int), s.drop_last(), contents.drop_last())
            + contents.last()
            + orig.subrange(r.end as int, orig.len() as int)
    }
}

/// Bytes after the last region pass through splicing unchanged.
pub proof fn lemma_spliced_extend(orig: Seq<u8>, s: Seq<ByteRange>, contents: Seq<Seq<u8>>, m: int)
    requires
        cuttable(s, m),
        0 <= m <= orig.len(),
    ensures
        spliced(orig, s, contents) == spliced(orig.subrange(0, m), s, contents) + orig.subrange(m, orig.len() as int),
{
    reveal(spliced);
    if s.len() == 0 {
        assert(orig =~= orig.subrange(0, m) + orig.subrange(m, orig.len() as int));
    } else {
        let r = s.last();
        assert(s[s.len() - 1].start <= s[s.len() - 1].end);
        assert(orig.subrange(0, m).subrange(0, r.start as int) =~= orig.subrange(0, r.start as int));
        assert(orig.subrange(r.end as int, orig.len() as int)
            =~= orig.subrange(0, m).subrange(r.end as int, m) + orig.subrange(m, orig.len() as int));
    }
}

/// The ordered regions all end by the end of the last one.
pub proof fn lemma_cuttable_to_last(s: Seq<ByteRange>, n: int)
    requires
        cuttable(s, n),
        s.len() > 0,
    ensures
        cuttable(s, s.last().end as int),
{
    assert forall|j: int| 0 <= j < s.len() implies (#[trigger] s[j]).end <= s.last().end by {
        if j < s.len() - 1 {
            lemma_cuttable_apart(s, n, j, s.len() - 1);
            assert(s[s.len() - 1].start <= s[s.len() - 1].end);
        }
    }
}

/// Cutting one more region off the front of what is left extends the spliced prefix by the
/// gap before it and its contents.
#[verifier::spinoff_prover]
#[verifier::rlimit(30)]
pub proof fn lemma_spliced_push(orig: Seq<u8>, s: Seq<ByteRange>, contents: Seq<Seq<u8>>, i: int, offset: int, c: Seq<u8>)
    requires
        cuttable(s, orig.len() as int),
        0 <= i < s.len(),
        contents.len() == i,
        i == 0 ==> offset == 0,
        i > 0 ==> offset == s[i - 1].end,
    ensures
        spliced(orig.subrange(0, s[i].end as int), s.take(i + 1), contents.push(c))
            == spliced(orig.subrange(0, offset), s.take(i), contents)
                + orig.subrange(offset, s[i].start as int) + c,
{
    reveal(spliced);
    let r = s[i];
    assert(s[i].start <= s[i].end);
    assert(offset <= r.start);
    assert(s.take(i + 1).drop_last() =~= s.take(i));
    assert(s.take(i + 1).last() == r);
    assert(contents.push(c).drop_last() =~= contents);
    let pre = orig.subrange(0, r.end as int).subrange(0, r.start as int);
    assert(pre =~= orig.subrange(0, r.start as int));
    assert(cuttable(s.take(i), offset)) by {
        assert forall|j: int| 0 <= j < s.take(i).len() implies (#[trigger] s.take(i)[j]).end <= offset by {
            if j < i - 1 {
                lemma_cuttable_apart(s, orig.len() as int, j, i - 1);
                assert(s[i - 1].start <= s[i - 1].end);
            }
        }
    }
    lemma_spliced_extend(pre, s.take(i), contents, offset);
    assert(pre.subrange(0, offset) =~= orig.subrange(0, offset));
    assert(pre.subrange(offset, pre.len() as int) =~= orig.subrange(offset, r.start as int));
    assert(orig.subrange(0, r.end as int).subrange(r.end as int, r.end as int) =~= Seq::<u8>::empty());
}

/// Splicing the regions' own bytes back gives the buffer unchanged.
pub proof fn law_spliced_unchanged(orig: Seq<u8>, s: Seq<ByteRange>)
    requires
        cuttable(s, orig.len() as int),
    ensures
        spliced(orig, s, Seq::new(s.len(), |q: int| s[q].of(orig))) == orig,
    decreases s.len(),
{
    reveal(spliced);
    if s.len() > 0 {
        let r = s.last();
        let n = s.len() - 1;
        assert(s[n].start <= s[n].end);
        let pre = orig.subrange(0, r.start as int);
        let s2 = s.drop_last();
        assert(cuttable(s2, pre.len() as int)) by {
            assert forall|j: int| 0 <= j < s2.len() implies (#[trigger] s2[j]).end <= pre.len() by {
                lemma_cuttable_apart(s, orig.len() as int, j, n);
            }
        }
        law_spliced_unchanged(pre, s2);
        let c = Seq::new(s.len(), |q: int| s[q].of(orig));
        assert forall|q: int| 0 <= q < s2.len() implies #[trigger] c.drop_last()[q] == s2[q].of(pre) by {
            lemma_cuttable_apart(s, orig.len() as int, q, n);
            assert(s[q].start <= s[q].end);
            assert(s2[q].of(pre) =~= s[q].of(orig));
        }
        assert(c.drop_last() =~= Seq::new(s2.len(), |q: int| s2[q].of(pre)));
        assert(orig =~= pre + r.of(orig) + orig.subrange(r.end as int, orig.len() as int));
    }
}

/// Where every content is as long as its region, splicing keeps the buffer's length, puts
/// each content at its region, and keeps every byte that lies in no region.
pub proof fn law_spliced_regions(orig: Seq<u8>, s: Seq<ByteRange>, contents: Seq<Seq<u8>>)
    requires
        cuttable(s, orig.len() as int),
        contents.len() == s.len(),
        forall|q: int| 0 <= q < s.len() ==> (#[trigger] contents[q]).len() == s[q].len(),
    ensures
        spliced(orig, s, contents).len() == orig.len(),
        forall|q: int| 0 <= q < s.len() ==>
            #[trigger] spliced(orig, s, contents).subrange(s[q].start as int, s[q].end as int) == contents[q],
        forall|p: int| 0 <= p < orig.len() && (forall|q: int| 0 <= q < s.len() ==> !(#[trigger] s[q].start <= p < s[q].end))
            ==> #[trigger] spliced(orig, s, contents)[p] == orig[p],
    decreases s.len(),
{
    reveal(spliced);
    if s.len() > 0 {
        let n = s.len() - 1;
        let r = s[n];
        assert(r.start <= r.end);
        let pre = orig.subrange(0, r.start as int);
        let post = orig.subrange(r.end as int, orig.len() as int);
        let s2 = s.drop_last();
        let c2 = contents.drop_last();
        assert(cuttable(s2, pre.len() as int)) by {
            assert forall|j: int| 0 <= j < s2.len() implies (#[trigger] s2[j]).end <= pre.len() by {
                lemma_cuttable_apart(s, orig.len() as int, j, n);
            }
        }
        law_spliced_regions(pre, s2, c2);
        let head = spliced(pre, s2, c2);
        let res = spliced(orig, s, contents);
        assert(res == head + contents[n] + post);
        assert forall|q: int| 0 <= q < s.len() implies
            #[trigger] res.subrange(s[q].start as int, s[q].end as int) == contents[q] by {
            if q < n {
                lemma_cuttable_apart(s, orig.len() as int, q, n);
                assert(s[q].start <= s[q].end);
                assert(s2[q] == s[q]);
                assert(head.subrange(s2[q].start as int, s2[q].end as int) == c2[q]);
                assert(res.subrange(s[q].start as int, s[q].end as int) =~= head.subrange(s[q].start as int, s[q].end as int));
            } else {
                assert(res.subrange(s[q].start as int, s[q].end as int) =~= contents[n]);
            }
        }
        assert forall|p: int| 0 <= p < orig.len() && (forall|q: int| 0 <= q < s.len() ==> !(#[trigger] s[q].start <= p < s[q].end))
            implies #[trigger] res[p] == orig[p] by {
            assert(!(s[n].start <= p < s[n].end));
            if p < r.start {
                assert forall|q: int| 0 <= q < s2.len() implies !(#[trigger] s2[q].start <= p < s2[q].end) by {
                    assert(s2[q] == s[q]);
                    assert(!(s[q].start <= p < s[q].end));
                }
                assert(head[p] == pre[p]);
            }
        }
    }
}

/// A claimed piece is a free position of the map, four bytes long where it holds a CRC-32.
proof fn lemma_claim_done(s: Seq<ByteRange>, taken: Set<int>, start: usize, crc: bool)
    ensures
        claim(s, taken, start, crc) matches Stage::Done(p) ==> {
            &&& 0 <= p < s.len()
            &&& s[p].start == start
            &&& !taken.contains(p)
            &&& crc ==> s[p].end - s[p].start == 4
        },
{
}

/// Once the members hold their pieces, every member has its own three pieces.
pub proof fn lemma_assemble_scan_slots(s: Seq<ByteRange>, ranges: Seq<FileRanges>, n: nat)
    requires
        s.len() <= usize::MAX + 1,
        n <= ranges.len(),
    ensures
        assemble_scan(s, ranges, n) matches Stage::Done(acc) ==> {
            &&& slots_ok(acc.0, s)
            &&& acc.0.len() == n
            &&& forall|a: int| 0 <= a < acc.0.len() ==> {
                &&& acc.1.contains((#[trigger] acc.0[a]).data as int)
                &&& acc.1.contains(acc.0[a].crc32 as int)
                &&& acc.1.contains(acc.0[a].central_crc32 as int)
            }
            &&& forall|a: int| 0 <= a < acc.0.len() ==> {
                &&& s[(#[trigger] acc.0[a]).data as int].start == ranges[a].data.start
                &&& s[acc.0[a].crc32 as int].start == ranges[a].crc32.start
                &&& s[acc.0[a].central_crc32 as int].start == ranges[a].central_crc32.start
            }
        },
    decreases n,
{
    if n > 0 {
        lemma_assemble_scan_slots(s, ranges, (n - 1) as nat);
        if let Stage::Done(prev) = assemble_scan(s, ranges, (n - 1) as nat) {
            let f = ranges[n - 1];
            let t0 = prev.1;
            assert(assemble_scan(s, ranges, n) == assemble_step(s, prev, f));
            lemma_claim_done(s, t0, f.data.start, false);
            if let Stage::Done(d) = claim(s, t0, f.data.start, false) {
                lemma_claim_done(s, t0.insert(d), f.crc32.start, true);
                if let Stage::Done(c) = claim(s, t0.insert(d), f.crc32.start, true) {
                    lemma_claim_done(s, t0.insert(d).insert(c), f.central_crc32.start, true);
                    if let Stage::Done(z) = claim(s, t0.insert(d).insert(c), f.central_crc32.start, true) {
                        let sl = Slots { data: d as usize, crc32: c as usize, central_crc32: z as usize };
                        let acc = (prev.0.push(sl), t0.insert(d).insert(c).insert(z));
                        assert(assemble_scan(s, ranges, n) == Stage::Done(acc));
                        assert(slot_within(sl, s));
                        assert forall|a: int, b: int| 0 <= a < acc.0.len() && 0 <= b < acc.0.len() && a != b
                            implies slots_apart(#[trigger] acc.0[a], #[trigger] acc.0[b]) by {
                            if a < prev.0.len() && b < prev.0.len() {
                                assert(acc.0[a] == prev.0[a] && acc.0[b] == prev.0[b]);
                            } else if a < prev.0.len() {
                                assert(acc.0[a] == prev.0[a]);
                                assert(t0.contains(prev.0[a].data as int));
                                assert(t0.contains(prev.0[a].crc32 as int));
                                assert(t0.contains(prev.0[a].central_crc32 as int));
                            } else {
                                assert(acc.0[b] == prev.0[b]);
                                assert(t0.contains(prev.0[b].data as int));
                                assert(t0.contains(prev.0[b].crc32 as int));
                                assert(t0.contains(prev.0[b].central_crc32 as int));
                            }
                        }
                        assert forall|a: int| 0 <= a < acc.0.len() implies {
                            &&& acc.1.contains((#[trigger] acc.0[a]).data as int)
                            &&& acc.1.contains(acc.0[a].crc32 as int)
                            &&& acc.1.contains(acc.0[a].central_crc32 as int)
                        } by {
                            if a < prev.0.len() {
                                assert(acc.0[a] == prev.0[a]);
                            }
                        }
                        assert forall|a: int| 0 <= a < acc.0.len() implies {
                            &&& s[(#[trigger] acc.0[a]).data as int].start == ranges[a].data.start
                            &&& s[acc.0[a].crc32 as int].start == ranges[a].crc32.start
                            &&& s[acc.0[a].central_crc32 as int].start == ranges[a].central_crc32.start
                        } by {
                            if a < prev.0.len() {
                                assert(acc.0[a] == prev.0[a]);
                            }
                        }
                    }
                }
            }
        }
    }
}

/// Regions with strictly increasing starts that all start within `n` bytes are at most `n + 1`.
pub proof fn lemma_sorted_count(s: Seq<ByteRange>, n: int, j: int)
    requires
        sorted_by_start(s),
        0 <= j < s.len(),
    ensures
        s[j].start >= j,
    decreases j,
{
    if j > 0 {
        lemma_sorted_count(s, n, j - 1);
    }
}

/// The regions of a layout whose cutting and handing out succeeded.
pub proof fn lemma_cut_and_assembled(n: int, ranges: Seq<FileRanges>)
    requires
        forall|j: int| 0 <= j < ranges.len() ==> forwards(#[trigger] ranges[j]),
        split_fault(splits_of(ranges), n, 0, 0) is None,
        assemble_scan(splits_of(ranges), ranges, ranges.len()) is Done,
    ensures
        assemble_scan(splits_of(ranges), ranges, ranges.len()) matches Stage::Done(acc) && {
            &&& forall|p: int| 0 <= p < splits_of(ranges).len() ==> (#[trigger] splits_of(ranges)[p]).within(n)
            &&& forall|p: int, q: int| 0 <= p < q < splits_of(ranges).len() ==>
                #[trigger] splits_of(ranges)[p].end <= #[trigger] splits_of(ranges)[q].start
            &&& slots_ok(acc.0, splits_of(ranges))
            &&& acc.0.len() == ranges.len()
        },
{
    let s = splits_of(ranges);
    lemma_splits_of_order(ranges);
    lemma_split_fault_none(s, n, 0, 0);
    assert(cuttable(s, n));
    if s.len() > 0 {
        lemma_sorted_count(s, n, s.len() - 1);
    }
    lemma_assemble_scan_slots(s, ranges, ranges.len());
    assert forall|a: int, b: int| 0 <= a < b < s.len() implies #[trigger] s[a].end <= #[trigger] s[b].start by {
        lemma_cuttable_apart(s, n, a, b);
    }
}

/// The pieces of a computed layout lie within the buffer and do not overlap, and every member
/// has its own three pieces, so that all mutable views can be held at once.
pub proof fn law_layout_disjoint(bytes: Seq<u8>, entries: Seq<(Seq<char>, EntryOutcome)>)
    requires
        layout_of(bytes, entries) is Done,
    ensures
        layout_of(bytes, entries) matches Stage::Done(l) && {
            &&& forall|p: int| 0 <= p < l.splits.len() ==> (#[trigger] l.splits[p]).within(bytes.len() as int)
            &&& forall|p: int, q: int| 0 <= p < q < l.splits.len() ==> #[trigger] l.splits[p].end <= #[trigger] l.splits[q].start
            &&& slots_ok(l.slots, l.splits)
            &&& l.slots.len() == l.names.len()
        },
{
    let n = entries.len();
    lemma_plan_scan_forwards(bytes, entries, n);
    lemma_plan_names_ranges(bytes, entries, n);
    let p = plan_scan(bytes, entries, n)->Done_0;
    lemma_cut_and_assembled(bytes.len() as int, p.ranges);
}

/// A plan has one region triple per viewable name.
pub proof fn lemma_plan_names_ranges(bytes: Seq<u8>, entries: Seq<(Seq<char>, EntryOutcome)>, n: nat)
    ensures
        plan_scan(bytes, entries, n) matches Stage::Done(p) ==> p.names.len() == p.ranges.len(),
    decreases n,
{
    if n > 0 {
        lemma_plan_names_ranges(bytes, entries, (n - 1) as nat);
    }
}

/// The three regions of one member start at different offsets.
pub open spec fn starts_own(a: FileRanges) -> bool {
    &&& a.data.start != a.crc32.start
    &&& a.data.start != a.central_crc32.start
    &&& a.crc32.start != a.central_crc32.start
}

/// No region of one member starts where a region of the other does.
pub open spec fn starts_apart(a: FileRanges, b: FileRanges) -> bool {
    &&& a.data.start != b.data.start && a.data.start != b.crc32.start && a.data.start != b.central_crc32.start
    &&& a.crc32.start != b.data.start && a.crc32.start != b.crc32.start && a.crc32.start != b.central_crc32.start
    &&& a.central_crc32.start != b.data.start && a.central_crc32.start != b.crc32.start
    &&& a.central_crc32.start != b.central_crc32.start
}

/// All regions of all members start at different offsets.
pub open spec fn starts_distinct(ranges: Seq<FileRanges>) -> bool {
    &&& forall|i: int| 0 <= i < ranges.len() ==> starts_own(#[trigger] ranges[i])
    &&& forall|i: int, j: int| 0 <= i < ranges.len() && 0 <= j < ranges.len() && i != j
        ==> starts_apart(#[trigger] ranges[i], #[trigger] ranges[j])
}

/// Inserting `r` keeps every region whose start differs and adds `r`.
proof fn lemma_insert_sorted_members(s: Seq<ByteRange>, r: ByteRange, x: ByteRange)
    ensures
        insert_sorted(s, r).contains(r),
        s.contains(x) && x.start != r.start ==> insert_sorted(s, r).contains(x),
    decreases s.len(),
{
    let t = insert_sorted(s, r);
    if s.len() == 0 {
        assert(t[0] == r);
    } else if s[0].start == r.start {
        assert(t[0] == r);
        if s.contains(x) && x.start != r.start {
            let j = choose|j: int| 0 <= j < s.len() && s[j] == x;
            assert(j != 0);
            assert(t[j] == s[j]);
        }
    } else if s[0].start > r.start {
        assert(t[0] == r);
        if s.contains(x) {
            let j = choose|j: int| 0 <= j < s.len() && s[j] == x;
            assert(t[j + 1] == s[j]);
        }
    } else {
        let u = s.drop_first();
        lemma_insert_sorted_members(u, r, x);
        let v = insert_sorted(u, r);
        assert(t == seq![s[0]] + v);
        let j = choose|j: int| 0 <= j < v.len() && v[j] == r;
        assert(t[j + 1] == r);
        if s.contains(x) && x.start != r.start {
            let k = choose|k: int| 0 <= k < s.len() && s[k] == x;
            if k == 0 {
                assert(t[0] == x);
            } else {
                assert(u[k - 1] == x);
                assert(u.contains(x));
                let q = choose|q: int| 0 <= q < v.len() && v[q] == x;
                assert(t[q + 1] == x);
            }
        }
    }
}

/// Where all regions start at different offsets, the ordered map holds every one of them.
pub proof fn lemma_splits_of_exact(ranges: Seq<FileRanges>)
    requires
        starts_distinct(ranges),
    ensures
        forall|i: int| 0 <= i < ranges.len() ==> {
            &&& splits_of(ranges).contains((#[trigger] ranges[i]).data)
            &&& splits_of(ranges).contains(ranges[i].crc32)
            &&& splits_of(ranges).contains(ranges[i].central_crc32)
        },
    decreases ranges.len(),
{
    if ranges.len() > 0 {
        let rest = ranges.drop_last();
        assert(starts_distinct(rest)) by {
            assert forall|i: int| 0 <= i < rest.len() implies starts_own(#[trigger] rest[i]) by {
                assert(rest[i] == ranges[i]);
            }
            assert forall|i: int, j: int| 0 <= i < rest.len() && 0 <= j < rest.len() && i != j
                implies starts_apart(#[trigger] rest[i], #[trigger] rest[j]) by {
                assert(rest[i] == ranges[i] && rest[j] == ranges[j]);
            }
        }
        lemma_splits_of_exact(rest);
        let f = ranges.last();
        let last = ranges.len() - 1;
        assert(starts_own(ranges[last]));
        let s0 = splits_of(rest);
        let s1 = insert_sorted(s0, f.crc32);
        let s2 = insert_sorted(s1, f.data);
        let s3 = insert_sorted(s2, f.central_crc32);
        assert(splits_of(ranges) == s3);
        assert forall|i: int| 0 <= i < ranges.len() implies {
            &&& s3.contains((#[trigger] ranges[i]).data)
            &&& s3.contains(ranges[i].crc32)
            &&& s3.contains(ranges[i].central_crc32)
        } by {
            if i == last {
                lemma_insert_sorted_members(s0, f.crc32, f.crc32);
                lemma_insert_sorted_members(s1, f.data, f.crc32);
                lemma_insert_sorted_members(s1, f.data, f.data);
                lemma_insert_sorted_members(s2, f.central_crc32, f.crc32);
                lemma_insert_sorted_members(s2, f.central_crc32, f.data);
                lemma_insert_sorted_members(s2, f.central_crc32, f.central_crc32);
            } else {
                let g = ranges[i];
                assert(g == rest[i]);
                assert(starts_apart(g, f));
                lemma_insert_sorted_members(s0, f.crc32, g.data);
                lemma_insert_sorted_members(s0, f.crc32, g.crc32);
                lemma_insert_sorted_members(s0, f.crc32, g.central_crc32);
                lemma_insert_sorted_members(s1, f.data, g.data);
                lemma_insert_sorted_members(s1, f.data, g.crc32);
                lemma_insert_sorted_members(s1, f.data, g.central_crc32);
                lemma_insert_sorted_members(s2, f.central_crc32, g.data);
                lemma_insert_sorted_members(s2, f.central_crc32, g.crc32);
                lemma_insert_sorted_members(s2, f.central_crc32, g.central_crc32);
            }
        }
    }
}

} // verus!
