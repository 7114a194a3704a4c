//! How the immutable and the mutable views of one archive relate.

use vstd::prelude::*;

use crate::archive::{names_distinct, EntryOutcome};
use crate::bytes::{spec_range_at, spec_slice_at, ByteRange};
use crate::checksum::ChecksumStatus;
use crate::error::{ErrorKind, ZipFault};
use crate::bytes::{le_u16, le_u32, lemma_le_u32_roundtrip, u32_le_bytes};
use crate::checksum::crc32_ieee;
use crate::layout::{
    assemble_scan, cuttable, forwards, lemma_assemble_scan_slots, lemma_cut_and_assembled,
    lemma_plan_names_ranges, lemma_plan_scan_forwards, lemma_sorted_count, lemma_splits_of_exact,
    lemma_splits_of_order, plan_file, plan_scan, plan_start, plan_step, slot_within, slots_apart,
    sorted_by_start, split_fault, splits_of, starts_apart, starts_distinct, starts_own, FileRanges,
    MutPlan, Stage, law_layout_disjoint, law_spliced_regions, layout_of, spliced,
};
use crate::view::{
    law_view_classifies, lemma_view_scan_same_len, same_lists, law_view_members_in_order, law_view_names_in_order, lemma_viewable_names_distinct, shows_entry, placed_in, view_of, view_scan, view_step, viewable_facts, viewable_names,
    NpyModel, NpzModel,
};
use crate::view_mut::{members_apart, pieces_own, ranges_apart, lookup_mut_by_name, take_by_index, view_mut_of, NpzMutModel};

verus! {

/// The immutable view that a plan describes: each member's data and central CRC-32 are the
/// bytes of its regions.
pub open spec fn view_from_plan(bytes: Seq<u8>, p: MutPlan) -> NpzModel {
    NpzModel {
        names: p.names,
        files: Seq::new(p.ranges.len(), |i: int| NpyModel {
            data: p.ranges[i].data.of(bytes),
            central_crc32: p.ranges[i].central_crc32.of(bytes),
            status: ChecksumStatus::Unverified,
        }),
        directory_names: p.directory_names,
        compressed_names: p.compressed_names,
        encrypted_names: p.encrypted_names,
    }
}

/// The data and central CRC-32 regions of every planned member lie within `n` bytes.
pub open spec fn plan_within(p: MutPlan, n: int) -> bool {
    forall|i: int| 0 <= i < p.ranges.len() ==> {
        &&& (#[trigger] p.ranges[i]).data.within(n)
        &&& p.ranges[i].central_crc32.within(n)
    }
}

/// A stored member's computed data and central CRC-32 regions are the ranges that the
/// immutable view slices.
proof fn lemma_plan_file_slices(bytes: Seq<u8>, f: crate::archive::EntryFacts)
    ensures
        plan_file(bytes, f) matches Stage::Done(r) ==> {
            &&& spec_range_at(f.data_start, 0, f.size) == Some(r.data)
            &&& spec_range_at(f.central_header_start, 16, 20) == Some(r.central_crc32)
        },
{
}

/// Where the plan of the first `k` entries succeeds with regions within the buffer, the
/// immutable view of those entries succeeds and shows the same names and bytes.
proof fn lemma_plan_view_agree(bytes: Seq<u8>, entries: Seq<(Seq<char>, EntryOutcome)>, k: nat)
    requires
        k <= entries.len(),
    ensures
        plan_scan(bytes, entries, k) matches Stage::Done(p) ==> (plan_within(p, bytes.len() as int)
            ==> view_scan(bytes, entries, k) == Ok::<NpzModel, ErrorKind>(view_from_plan(bytes, p))),
    decreases k,
{
    if k == 0 {
        let p = plan_start(entries);
        assert(view_from_plan(bytes, p).files =~= Seq::<NpyModel>::empty());
    } else {
        lemma_plan_view_agree(bytes, entries, (k - 1) as nat);
        if let Stage::Done(q) = plan_scan(bytes, entries, (k - 1) as nat) {
            if let Stage::Done(p) = plan_scan(bytes, entries, k) {
                if plan_within(p, bytes.len() as int) {
                    let e = entries[k - 1];
                    assert(plan_step(bytes, q, e) == Stage::Done(p));
                    match e.1 {
                        EntryOutcome::Encrypted => {},
                        EntryOutcome::Unreadable => {},
                        EntryOutcome::Readable(f) => {
                            if !f.is_dir && f.stored {
                                lemma_plan_file_slices(bytes, f);
                                let r = plan_file(bytes, f)->Done_0;
                                assert(p.ranges == q.ranges.push(r));
                                assert(plan_within(q, bytes.len() as int)) by {
                                    assert forall|i: int| 0 <= i < q.ranges.len() implies {
                                        &&& (#[trigger] q.ranges[i]).data.within(bytes.len() as int)
                                        &&& q.ranges[i].central_crc32.within(bytes.len() as int)
                                    } by {
                                        assert(p.ranges[i] == q.ranges[i]);
                                    }
                                }
                                assert(p.ranges[q.ranges.len() as int] == r);
                                assert(spec_slice_at(bytes, f.data_start, 0, f.size) == Ok::<Seq<u8>, crate::error::ZipFault>(r.data.of(bytes)));
                                assert(spec_slice_at(bytes, f.central_header_start, 16, 20) == Ok::<Seq<u8>, crate::error::ZipFault>(r.central_crc32.of(bytes)));
                                assert(view_from_plan(bytes, p).files =~= view_from_plan(bytes, q).files.push(NpyModel {
                                    data: r.data.of(bytes),
                                    central_crc32: r.central_crc32.of(bytes),
                                    status: ChecksumStatus::Unverified,
                                }));
                            } else {
                                assert(p.ranges == q.ranges);
                                assert(view_from_plan(bytes, p).files =~= view_from_plan(bytes, q).files);
                            }
                        },
                    }
                }
            }
        }
    }
}

/// In a strictly ordered map, two positions with the same start are one position.
proof fn lemma_sorted_unique(s: Seq<ByteRange>, p: int, q: int)
    requires
        sorted_by_start(s),
        0 <= p < s.len(),
        0 <= q < s.len(),
        s[p].start == s[q].start,
    ensures
        p == q,
{
    if p < q {
        assert(s[p].start < s[q].start);
    } else if q < p {
        assert(s[q].start < s[p].start);
    }
}

/// Once the layout is complete, each member's pieces are exactly its own regions, and those
/// lie within the buffer.
proof fn lemma_layout_pieces(n: int, ranges: Seq<FileRanges>)
    requires
        forall|j: int| 0 <= j < ranges.len() ==> forwards(#[trigger] ranges[j]),
        split_fault(splits_of(ranges), n, 0, 0) is None,
        assemble_scan(splits_of(ranges), ranges, ranges.len()) is Done,
    ensures
        assemble_scan(splits_of(ranges), ranges, ranges.len()) matches Stage::Done(acc) && {
            &&& acc.0.len() == ranges.len()
            &&& forall|i: int| 0 <= i < ranges.len() ==> {
                &&& splits_of(ranges)[(#[trigger] acc.0[i]).data as int] == ranges[i].data
                &&& splits_of(ranges)[acc.0[i].crc32 as int] == ranges[i].crc32
                &&& splits_of(ranges)[acc.0[i].central_crc32 as int] == ranges[i].central_crc32
                &&& ranges[i].data.within(n)
                &&& ranges[i].central_crc32.within(n)
            }
        },
{
    let s = splits_of(ranges);
    lemma_splits_of_order(ranges);
    lemma_cut_and_assembled(n, ranges);
    let acc = assemble_scan(s, ranges, ranges.len())->Done_0;
    lemma_sorted_count_bound(s, n);
    lemma_assemble_scan_slots(s, ranges, ranges.len());
    let slots = acc.0;
    assert(starts_distinct(ranges)) by {
        assert forall|i: int| 0 <= i < ranges.len() implies starts_own(#[trigger] ranges[i]) by {
            assert(slot_within(slots[i], s));
            if ranges[i].data.start == ranges[i].crc32.start {
                lemma_sorted_unique(s, slots[i].data as int, slots[i].crc32 as int);
            }
            if ranges[i].data.start == ranges[i].central_crc32.start {
                lemma_sorted_unique(s, slots[i].data as int, slots[i].central_crc32 as int);
            }
            if ranges[i].crc32.start == ranges[i].central_crc32.start {
                lemma_sorted_unique(s, slots[i].crc32 as int, slots[i].central_crc32 as int);
            }
        }
        assert forall|i: int, j: int| 0 <= i < ranges.len() && 0 <= j < ranges.len() && i != j
            implies starts_apart(#[trigger] ranges[i], #[trigger] ranges[j]) by {
            let a = slots[i];
            let b = slots[j];
            assert(slots_apart(a, b));
            assert(slot_within(a, s) && slot_within(b, s));
            if ranges[i].data.start == ranges[j].data.start { lemma_sorted_unique(s, a.data as int, b.data as int); }
            if ranges[i].data.start == ranges[j].crc32.start { lemma_sorted_unique(s, a.data as int, b.crc32 as int); }
            if ranges[i].data.start == ranges[j].central_crc32.start { lemma_sorted_unique(s, a.data as int, b.central_crc32 as int); }
            if ranges[i].crc32.start == ranges[j].data.start { lemma_sorted_unique(s, a.crc32 as int, b.data as int); }
            if ranges[i].crc32.start == ranges[j].crc32.start { lemma_sorted_unique(s, a.crc32 as int, b.crc32 as int); }
            if ranges[i].crc32.start == ranges[j].central_crc32.start { lemma_sorted_unique(s, a.crc32 as int, b.central_crc32 as int); }
            if ranges[i].central_crc32.start == ranges[j].data.start { lemma_sorted_unique(s, a.central_crc32 as int, b.data as int); }
            if ranges[i].central_crc32.start == ranges[j].crc32.start { lemma_sorted_unique(s, a.central_crc32 as int, b.crc32 as int); }
            if ranges[i].central_crc32.start == ranges[j].central_crc32.start { lemma_sorted_unique(s, a.central_crc32 as int, b.central_crc32 as int); }
        }
    }
    lemma_splits_of_exact(ranges);
    assert forall|i: int| 0 <= i < ranges.len() implies {
        &&& s[(#[trigger] slots[i]).data as int] == ranges[i].data
        &&& s[slots[i].crc32 as int] == ranges[i].crc32
        &&& s[slots[i].central_crc32 as int] == ranges[i].central_crc32
        &&& ranges[i].data.within(n)
        &&& ranges[i].central_crc32.within(n)
    } by {
        assert(slot_within(slots[i], s));
        assert(s.contains(ranges[i].data));
        let qd = choose|q: int| 0 <= q < s.len() && s[q] == ranges[i].data;
        lemma_sorted_unique(s, qd, slots[i].data as int);
        assert(s.contains(ranges[i].crc32));
        let qc = choose|q: int| 0 <= q < s.len() && s[q] == ranges[i].crc32;
        lemma_sorted_unique(s, qc, slots[i].crc32 as int);
        assert(s.contains(ranges[i].central_crc32));
        let qz = choose|q: int| 0 <= q < s.len() && s[q] == ranges[i].central_crc32;
        lemma_sorted_unique(s, qz, slots[i].central_crc32 as int);
    }
}

/// Regions with strictly increasing `usize` starts number at most one more than `usize::MAX`.
proof fn lemma_sorted_count_bound(s: Seq<ByteRange>, n: int)
    requires
        sorted_by_start(s),
        cuttable(s, n),
    ensures
        s.len() <= usize::MAX + 1,
    decreases s.len(),
{
    if s.len() > 0 {
        lemma_sorted_count(s, n, s.len() - 1);
        assert(s[s.len() - 1].start <= s[s.len() - 1].end);
    }
}

/// Where the mutable view of an archive succeeds, so does the immutable one: both sort the
/// entries into the same lists, and each mutable member sees the same data and central
/// CRC-32 bytes as the immutable member at its index.
pub proof fn law_view_mut_agrees(bytes: Seq<u8>, entries: Seq<(Seq<char>, EntryOutcome)>)
    requires
        view_mut_of(bytes, entries) is Done,
    ensures
        view_of(bytes, entries) matches Ok(m) && view_mut_of(bytes, entries) matches Stage::Done(mm) && {
            &&& m.names == mm.names
            &&& m.directory_names == mm.directory_names
            &&& m.compressed_names == mm.compressed_names
            &&& m.encrypted_names == mm.encrypted_names
            &&& m.files.len() == mm.files.len()
            &&& forall|i: int| 0 <= i < m.files.len() ==> {
                &&& (#[trigger] mm.files[i]) is Some
                &&& mm.files[i]->Some_0.data == m.files[i].data
                &&& mm.files[i]->Some_0.central_crc32 == m.files[i].central_crc32
                &&& mm.files[i]->Some_0.status == m.files[i].status
            }
        },
{
    let n = entries.len();
    lemma_plan_scan_forwards(bytes, entries, n);
    let p = plan_scan(bytes, entries, n)->Done_0;
    lemma_layout_pieces(bytes.len() as int, p.ranges);
    let s = splits_of(p.ranges);
    let acc = assemble_scan(s, p.ranges, p.ranges.len())->Done_0;
    assert forall|i: int| 0 <= i < p.ranges.len() implies {
        &&& (#[trigger] p.ranges[i]).data.within(bytes.len() as int)
        &&& p.ranges[i].central_crc32.within(bytes.len() as int)
    } by {
        assert(s[acc.0[i].data as int] == p.ranges[i].data);
    }
    assert(plan_within(p, bytes.len() as int));
    lemma_plan_view_agree(bytes, entries, n);
    lemma_plan_names_ranges(bytes, entries, n);
}

/// The regions planned for the stored entries are, in order, those that `plan_file`
/// computes from each one's facts.
proof fn lemma_plan_ranges_facts(bytes: Seq<u8>, entries: Seq<(Seq<char>, EntryOutcome)>, n: nat)
    requires
        n <= entries.len(),
    ensures
        plan_scan(bytes, entries, n) matches Stage::Done(p) ==> {
            &&& p.ranges.len() == viewable_facts(entries.take(n as int)).len()
            &&& forall|i: int| 0 <= i < p.ranges.len() ==>
                plan_file(bytes, viewable_facts(entries.take(n as int))[i]) == Stage::Done(#[trigger] p.ranges[i])
        },
    decreases n,
{
    if n == 0 {
        assert(entries.take(0) =~= Seq::<(Seq<char>, EntryOutcome)>::empty());
    } else {
        lemma_plan_ranges_facts(bytes, entries, (n - 1) as nat);
        assert(entries.take(n as int).drop_last() =~= entries.take(n - 1));
        assert(entries.take(n as int).last() == entries[n - 1]);
        if let Stage::Done(q) = plan_scan(bytes, entries, (n - 1) as nat) {
            if let Stage::Done(p) = plan_scan(bytes, entries, n) {
                let vf = viewable_facts(entries.take(n as int));
                let qf = viewable_facts(entries.take(n - 1));
                assert(plan_step(bytes, q, entries[n - 1]) == Stage::Done(p));
                assert forall|i: int| 0 <= i < p.ranges.len() implies
                    plan_file(bytes, vf[i]) == Stage::Done(#[trigger] p.ranges[i]) by {
                    if i < q.ranges.len() {
                        assert(p.ranges[i] == q.ranges[i]);
                        assert(vf[i] == qf[i]);
                    }
                }
            }
        }
    }
}

/// The mutable and the immutable view of one archive give each index to the same entry,
/// at the same offsets: the mutable member at index `k` holds the data and central CRC-32
/// regions of the `k`-th stored entry, and both views show the bytes found there.
pub proof fn law_views_same_offsets(bytes: Seq<u8>, entries: Seq<(Seq<char>, EntryOutcome)>)
    requires
        view_mut_of(bytes, entries) is Done,
    ensures
        view_of(bytes, entries) matches Ok(m) && view_mut_of(bytes, entries) matches Stage::Done(mm) && {
            &&& m.files.len() == viewable_facts(entries).len()
            &&& mm.files.len() == viewable_facts(entries).len()
            &&& forall|k: int| 0 <= k < mm.files.len() ==> ((#[trigger] mm.files[k]) matches Some(f) && {
                &&& Some(f.data_range) == spec_range_at(viewable_facts(entries)[k].data_start, 0, viewable_facts(entries)[k].size)
                &&& Some(f.central_crc32_range) == spec_range_at(viewable_facts(entries)[k].central_header_start, 16, 20)
                &&& f.data == f.data_range.of(bytes)
                &&& f.central_crc32 == f.central_crc32_range.of(bytes)
                &&& m.files[k].data == f.data_range.of(bytes)
                &&& m.files[k].central_crc32 == f.central_crc32_range.of(bytes)
            })
        },
{
    law_view_mut_agrees(bytes, entries);
    let n = entries.len();
    lemma_plan_scan_forwards(bytes, entries, n);
    lemma_plan_ranges_facts(bytes, entries, n);
    assert(entries.take(n as int) =~= entries);
    let p = plan_scan(bytes, entries, n)->Done_0;
    lemma_layout_pieces(bytes.len() as int, p.ranges);
    let s = splits_of(p.ranges);
    let acc = assemble_scan(s, p.ranges, p.ranges.len())->Done_0;
    let mm = view_mut_of(bytes, entries)->Done_0;
    let vf = viewable_facts(entries);
    assert forall|k: int| 0 <= k < mm.files.len() implies ((#[trigger] mm.files[k]) matches Some(f) && {
        &&& Some(f.data_range) == spec_range_at(vf[k].data_start, 0, vf[k].size)
        &&& Some(f.central_crc32_range) == spec_range_at(vf[k].central_header_start, 16, 20)
        &&& f.data == f.data_range.of(bytes)
        &&& f.central_crc32 == f.central_crc32_range.of(bytes)
    }) by {
        assert(s[acc.0[k].data as int] == p.ranges[k].data);
        assert(plan_file(bytes, vf[k]) == Stage::Done(p.ranges[k]));
        lemma_plan_file_slices(bytes, vf[k]);
    }
}

/// Where each member's local CRC-32 lies, as the zip format places it. Where bit 3 of the
/// general purpose flag in the central header (at offset 8) is clear, it is the CRC-32 field
/// of the local header, bytes 14 to 18 of it; where the bit is set, it is the first word of
/// the data descriptor that follows the data, or the second word where the first is the
/// descriptor's signature `0x08074b50`.
pub proof fn law_local_crc32_placement(bytes: Seq<u8>, entries: Seq<(Seq<char>, EntryOutcome)>)
    requires
        view_mut_of(bytes, entries) is Done,
    ensures
        view_mut_of(bytes, entries) matches Stage::Done(mm) && {
            &&& mm.files.len() == viewable_facts(entries).len()
            &&& forall|k: int| 0 <= k < mm.files.len() ==> ((#[trigger] mm.files[k]) matches Some(f) && {
                let e = viewable_facts(entries)[k];
                let flags = le_u16(bytes.subrange(e.central_header_start + 8, e.central_header_start + 10));
                let end = e.data_start + e.size;
                &&& flags & 8u16 == 0u16 ==>
                    f.crc32_range.start == e.header_start + 14 && f.crc32_range.end == e.header_start + 18
                &&& flags & 8u16 != 0u16 && le_u32(bytes.subrange(end, end + 4)) != 0x0807_4b50u32 ==>
                    f.crc32_range.start == end && f.crc32_range.end == end + 4
                &&& flags & 8u16 != 0u16 && le_u32(bytes.subrange(end, end + 4)) == 0x0807_4b50u32 ==>
                    f.crc32_range.start == end + 4 && f.crc32_range.end == end + 8
                &&& f.crc32 == f.crc32_range.of(bytes)
            })
        },
{
    law_views_same_offsets(bytes, entries);
    let n = entries.len();
    lemma_plan_scan_forwards(bytes, entries, n);
    lemma_plan_ranges_facts(bytes, entries, n);
    assert(entries.take(n as int) =~= entries);
    let p = plan_scan(bytes, entries, n)->Done_0;
    lemma_layout_pieces(bytes.len() as int, p.ranges);
    let s = splits_of(p.ranges);
    let acc = assemble_scan(s, p.ranges, p.ranges.len())->Done_0;
    let mm = view_mut_of(bytes, entries)->Done_0;
    let vf = viewable_facts(entries);
    assert forall|k: int| 0 <= k < mm.files.len() implies ((#[trigger] mm.files[k]) matches Some(f) && {
        let e = vf[k];
        let flags = le_u16(bytes.subrange(e.central_header_start + 8, e.central_header_start + 10));
        let end = e.data_start + e.size;
        &&& flags & 8u16 == 0u16 ==>
            f.crc32_range.start == e.header_start + 14 && f.crc32_range.end == e.header_start + 18
        &&& flags & 8u16 != 0u16 && le_u32(bytes.subrange(end, end + 4)) != 0x0807_4b50u32 ==>
            f.crc32_range.start == end && f.crc32_range.end == end + 4
        &&& flags & 8u16 != 0u16 && le_u32(bytes.subrange(end, end + 4)) == 0x0807_4b50u32 ==>
            f.crc32_range.start == end + 4 && f.crc32_range.end == end + 8
        &&& f.crc32 == f.crc32_range.of(bytes)
    }) by {
        assert(s[acc.0[k].crc32 as int] == p.ranges[k].crc32);
        assert(plan_file(bytes, vf[k]) == Stage::Done(p.ranges[k]));
    }
}

/// In a fresh mutable view the member at index `k` is the `k`-th stored entry of the
/// archive: moving it out by index gives the view of that entry's data and central CRC-32
/// bytes, and where entry names are distinct, moving it out by that entry's name gives the
/// same view.
pub proof fn law_view_mut_members_in_order(bytes: Seq<u8>, entries: Seq<(Seq<char>, EntryOutcome)>)
    requires
        view_mut_of(bytes, entries) is Done,
    ensures
        view_mut_of(bytes, entries) matches Stage::Done(mm) && {
            &&& mm.names.len() == viewable_facts(entries).len()
            &&& forall|k: int| 0 <= k < mm.names.len() ==> (#[trigger] take_by_index(mm, k) matches Ok(f) && {
                &&& spec_slice_at(bytes, viewable_facts(entries)[k].data_start, 0, viewable_facts(entries)[k].size)
                    == Ok::<Seq<u8>, ZipFault>(f.data)
                &&& spec_slice_at(bytes, viewable_facts(entries)[k].central_header_start, 16, 20)
                    == Ok::<Seq<u8>, ZipFault>(f.central_crc32)
            })
            &&& names_distinct(entries) ==> forall|k: int| 0 <= k < mm.names.len() ==>
                lookup_mut_by_name(mm, viewable_names(entries)[k]) == #[trigger] take_by_index(mm, k)
        },
{
    law_view_mut_agrees(bytes, entries);
    law_views_same_offsets(bytes, entries);
    law_view_members_in_order(bytes, entries);
    law_view_names_in_order(bytes, entries);
    let m = view_of(bytes, entries)->Ok_0;
    let mm = view_mut_of(bytes, entries)->Done_0;
    assert forall|k: int| 0 <= k < mm.names.len() implies (#[trigger] take_by_index(mm, k) matches Ok(f) && {
        &&& spec_slice_at(bytes, viewable_facts(entries)[k].data_start, 0, viewable_facts(entries)[k].size)
            == Ok::<Seq<u8>, ZipFault>(f.data)
        &&& spec_slice_at(bytes, viewable_facts(entries)[k].central_header_start, 16, 20)
            == Ok::<Seq<u8>, ZipFault>(f.central_crc32)
    }) by {
        assert(shows_entry(bytes, m.files[k], viewable_facts(entries)[k]));
    }
    if names_distinct(entries) {
        law_view_mut_classifies(bytes, entries);
        lemma_viewable_names_distinct(entries);
        assert(mm.valid());
        assert forall|k: int| 0 <= k < mm.names.len() implies
            lookup_mut_by_name(mm, viewable_names(entries)[k]) == #[trigger] take_by_index(mm, k) by {
            crate::view_mut::law_by_name_is_by_index(mm, k);
        }
    }
}

/// The members of a fresh mutable view never share a byte: each member's data, local CRC-32
/// and central CRC-32 lie within the buffer apart from each other, and apart from every
/// piece of every other member, so that writing through one view leaves all others alone.
pub proof fn law_view_mut_disjoint(bytes: Seq<u8>, entries: Seq<(Seq<char>, EntryOutcome)>)
    requires
        view_mut_of(bytes, entries) is Done,
    ensures
        view_mut_of(bytes, entries) matches Stage::Done(mm) && {
            &&& forall|k: int| 0 <= k < mm.files.len() ==>
                ((#[trigger] mm.files[k]) matches Some(f) && pieces_own(f, bytes.len() as int))
            &&& forall|j: int, k: int| 0 <= j < mm.files.len() && 0 <= k < mm.files.len() && j != k ==>
                members_apart(#[trigger] mm.files[j]->Some_0, #[trigger] mm.files[k]->Some_0)
        },
{
    law_layout_disjoint(bytes, entries);
    let l = layout_of(bytes, entries)->Done_0;
    let s = l.splits;
    let mm = view_mut_of(bytes, entries)->Done_0;
    assert forall|p: int, q: int| 0 <= p < s.len() && 0 <= q < s.len() && p != q
        implies #[trigger] ranges_apart(s[p], s[q]) by {
        if p < q {
            assert(s[p].end <= s[q].start);
        } else {
            assert(s[q].end <= s[p].start);
        }
    }
    assert forall|k: int| 0 <= k < mm.files.len() implies
        ((#[trigger] mm.files[k]) matches Some(f) && pieces_own(f, bytes.len() as int)) by {
        assert(slot_within(l.slots[k], s));
    }
    assert forall|j: int, k: int| 0 <= j < mm.files.len() && 0 <= k < mm.files.len() && j != k implies
        members_apart(#[trigger] mm.files[j]->Some_0, #[trigger] mm.files[k]->Some_0) by {
        assert(slot_within(l.slots[j], s));
        assert(slot_within(l.slots[k], s));
        assert(slots_apart(l.slots[j], l.slots[k]));
    }
}

/// What an immutable view shows of the buffer that a mutable view leaves behind, read with the
/// same entries: where each region ends up holding contents of its own length, viewing the
/// spliced buffer succeeds with the same lists, each member shows the final contents of its
/// data and central CRC-32 pieces, and a member whose central CRC-32 piece was left holding
/// the checksum of its data, as updating or settling an outdated view leaves it, verifies
/// with that checksum.
pub proof fn law_fresh_view_after_write(bytes: Seq<u8>, entries: Seq<(Seq<char>, EntryOutcome)>, contents: Seq<Seq<u8>>)
    requires
        view_mut_of(bytes, entries) matches Stage::Done(mm) && {
            &&& contents.len() == mm.regions.len()
            &&& forall|q: int| 0 <= q < contents.len() ==> (#[trigger] contents[q]).len() == mm.regions[q].len()
        },
    ensures
        view_of(bytes, entries) matches Ok(m) && view_mut_of(bytes, entries) matches Stage::Done(mm)
            && view_of(spliced(bytes, mm.regions, contents), entries) matches Ok(m2) && {
            &&& same_lists(m, m2)
            &&& forall|k: int| 0 <= k < m2.files.len() ==> {
                &&& (#[trigger] m2.files[k]).data == contents[mm.slots[k].data as int]
                &&& m2.files[k].central_crc32 == contents[mm.slots[k].central_crc32 as int]
                &&& m2.files[k].status == ChecksumStatus::Unverified
                &&& contents[mm.slots[k].central_crc32 as int] == u32_le_bytes(crc32_ieee(contents[mm.slots[k].data as int]))
                    ==> m2.files[k].verify_result() == Ok::<u32, ErrorKind>(crc32_ieee(contents[mm.slots[k].data as int]))
            }
        },
{
    law_view_mut_agrees(bytes, entries);
    law_views_same_offsets(bytes, entries);
    law_layout_disjoint(bytes, entries);
    let l = layout_of(bytes, entries)->Done_0;
    let mm = view_mut_of(bytes, entries)->Done_0;
    let m = view_of(bytes, entries)->Ok_0;
    let s = mm.regions;
    assert(s == l.splits);
    assert(cuttable(s, bytes.len() as int)) by {
        assert forall|j: int| 0 < j < s.len() implies s[j - 1].end <= (#[trigger] s[j]).start by {
            assert(s[j - 1].end <= s[j].start);
        }
        assert forall|j: int| 0 <= j < s.len() implies (#[trigger] s[j]).start <= s[j].end by {
            assert(s[j].within(bytes.len() as int));
        }
    }
    let nb = spliced(bytes, s, contents);
    law_spliced_regions(bytes, s, contents);
    lemma_view_scan_same_len(bytes, nb, entries, entries.len());
    law_view_members_in_order(nb, entries);
    law_view_names_in_order(nb, entries);
    let m2 = view_of(nb, entries)->Ok_0;
    let vf = viewable_facts(entries);
    assert forall|k: int| 0 <= k < m2.files.len() implies {
        &&& (#[trigger] m2.files[k]).data == contents[mm.slots[k].data as int]
        &&& m2.files[k].central_crc32 == contents[mm.slots[k].central_crc32 as int]
        &&& m2.files[k].status == ChecksumStatus::Unverified
        &&& contents[mm.slots[k].central_crc32 as int] == u32_le_bytes(crc32_ieee(contents[mm.slots[k].data as int]))
            ==> m2.files[k].verify_result() == Ok::<u32, ErrorKind>(crc32_ieee(contents[mm.slots[k].data as int]))
    } by {
        let f = mm.files[k]->Some_0;
        assert(mm.files[k] matches Some(_));
        assert(shows_entry(nb, m2.files[k], vf[k]));
        assert(slot_within(l.slots[k], s));
        assert(f.data_range == s[mm.slots[k].data as int]);
        assert(f.central_crc32_range == s[mm.slots[k].central_crc32 as int]);
        assert(nb.subrange(f.data_range.start as int, f.data_range.end as int) == contents[mm.slots[k].data as int]);
        assert(nb.subrange(f.central_crc32_range.start as int, f.central_crc32_range.end as int)
            == contents[mm.slots[k].central_crc32 as int]);
        lemma_le_u32_roundtrip(crc32_ieee(contents[mm.slots[k].data as int]));
    }
}

/// The mutable view sorts the entries as the immutable view does: every entry ends up in
/// exactly the list that its kind calls for, the viewable names are the stored files in
/// archive order, and no view has had its checksum verified yet.
pub proof fn law_view_mut_classifies(bytes: Seq<u8>, entries: Seq<(Seq<char>, EntryOutcome)>)
    requires
        names_distinct(entries),
        view_mut_of(bytes, entries) is Done,
    ensures
        view_mut_of(bytes, entries) matches Stage::Done(mm) && {
            &&& forall|k: int| 0 <= k < entries.len() ==>
                placed_in(mm.names, mm.directory_names, mm.compressed_names, mm.encrypted_names, #[trigger] entries[k])
            &&& mm.names == viewable_names(entries)
            &&& forall|i: int| 0 <= i < mm.files.len() ==>
                ((#[trigger] mm.files[i]) matches Some(f) && f.status == ChecksumStatus::Unverified)
        },
{
    law_view_mut_agrees(bytes, entries);
    law_view_classifies(bytes, entries);
    law_view_names_in_order(bytes, entries);
    let m = view_of(bytes, entries)->Ok_0;
    let mm = view_mut_of(bytes, entries)->Done_0;
    assert forall|k: int| 0 <= k < entries.len() implies
        placed_in(mm.names, mm.directory_names, mm.compressed_names, mm.encrypted_names, #[trigger] entries[k]) by {
        assert(crate::view::placed(m, entries[k]));
    }
    assert forall|i: int| 0 <= i < mm.files.len() implies
        ((#[trigger] mm.files[i]) matches Some(f) && f.status == ChecksumStatus::Unverified) by {
        assert(m.files[i].status == ChecksumStatus::Unverified);
    }
}

} // verus!
