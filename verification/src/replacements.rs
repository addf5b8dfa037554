//! Replacing files: their new bytes go into a bundle of our own, and the index
//! leads there.

use crate::bytes::{copy_range, joined, push_all};
use crate::index::{BundleFile, BundleIndex, FileView, IndexError, IndexView};
use crate::index_update::{
    custom_name, is_first_free, with_bundle, with_bundle_size, with_file_record,
};
use crate::install::InstallLayout;
use crate::sort::{is_stable_order, picked, positions, stable_order, stable_positions};
use crate::text::texts;
use std::collections::HashMap;
use vstd::prelude::*;
use vstd::utf8::encode_utf8;

verus! {

broadcast use vstd::std_specs::hash::group_hash_axioms;

/// What was written to disk.
pub struct BundleWriteReport {
    pub touched_paths: Vec<String>,
}

/// A file slice reaches beyond its bundle.
#[derive(Debug, Clone, Copy, PartialEq, Eq, Structural)]
pub struct SliceExceedsBundle;

/// The bytes of a file in its bundle.
pub open spec fn sliced(bundle: Seq<u8>, file: FileView) -> Option<Seq<u8>> {
    if file.offset + file.size > bundle.len() {
        None
    } else {
        Some(bundle.subrange(file.offset as int, file.offset + file.size))
    }
}

/// The bytes of a file in its bundle.
pub fn slice_file(bundle: &[u8], file: &BundleFile) -> (r: Result<Vec<u8>, SliceExceedsBundle>)
    ensures
        match r {
            Ok(b) => sliced(bundle@, file@) == Some(b@),
            Err(_) => sliced(bundle@, file@) is None,
        },
{
    let end: u64 = file.offset as u64 + file.size as u64;
    if end > bundle.len() as u64 {
        return Err(SliceExceedsBundle);
    }
    Ok(copy_range(bundle, file.offset as usize, end as usize))
}

/// A file and the bytes that replace it.
pub open spec fn edit_view(e: (BundleFile, Vec<u8>)) -> (FileView, Seq<u8>) {
    (e.0@, e.1@)
}

pub open spec fn edit_views(v: Seq<(BundleFile, Vec<u8>)>) -> Seq<(FileView, Seq<u8>)> {
    v.map_values(|e: (BundleFile, Vec<u8>)| edit_view(e))
}

/// The place of a file in the order of the index; files that it does not have
/// come last.
pub open spec fn edit_key(hash: u64, order: Map<u64, usize>) -> u64 {
    if order.contains_key(hash) {
        order[hash] as u64
    } else {
        usize::MAX as u64
    }
}

pub open spec fn edit_keys(edits: Seq<(FileView, Seq<u8>)>, order: Map<u64, usize>) -> Seq<u64> {
    edits.map_values(|e: (FileView, Seq<u8>)| edit_key(e.0.hash, order))
}

/// The edits in the order of the index; edits of the same place keep their
/// order.
pub open spec fn ordered_edits(
    edits: Seq<(FileView, Seq<u8>)>,
    order: Map<u64, usize>,
) -> Seq<(FileView, Seq<u8>)> {
    picked(edits, stable_order(edit_keys(edits, order)))
}

/// Sorts edits into the order of the index.
pub fn sort_edits_by_index_order(
    edits: &mut Vec<(BundleFile, Vec<u8>)>,
    file_order: &HashMap<u64, usize>,
)
    ensures
        edit_views(final(edits)@) == ordered_edits(edit_views(old(edits)@), file_order@),
{
    let ghost all = edit_views(edits@);
    let ghost items = edits@;
    let n: usize = edits.len();
    let mut keys: Vec<u64> = Vec::new();
    let mut i: usize = 0;
    while i < n
        invariant
            i <= n == edits@.len(),
            edits@ == items,
            all == edit_views(items),
            keys@ == edit_keys(all, file_order@).take(i as int),
        decreases n - i,
    {
        assert(all[i as int] == edit_view(items[i as int]));
        let hash: u64 = edits[i].0.hash;
        let key: u64 = match file_order.get(&hash) {
            Some(k) => *k as u64,
            None => usize::MAX as u64,
        };
        keys.push(key);
        i = i + 1;
        assert(keys@ =~= edit_keys(all, file_order@).take(i as int));
    }
    assert(keys@ =~= edit_keys(all, file_order@));
    let order = stable_positions(&keys);
    let ghost p = positions(order@);
    let mut slots: Vec<Option<(BundleFile, Vec<u8>)>> = Vec::new();
    let mut source: Vec<(BundleFile, Vec<u8>)> = Vec::new();
    std::mem::swap(&mut source, edits);
    let mut reversed: Vec<(BundleFile, Vec<u8>)> = Vec::new();
    i = n;
    while i > 0
        invariant
            i <= n == items.len(),
            source@ == items.take(i as int),
            reversed@ == items.subrange(i as int, n as int).reverse(),
        decreases i,
    {
        match source.pop() {
            Some(e) => {
                reversed.push(e);
            },
            None => {
                assert(false);
            },
        }
        i = i - 1;
        assert(source@ =~= items.take(i as int));
        assert(reversed@ =~= items.subrange(i as int, n as int).reverse());
    }
    while i < n
        invariant
            i <= n == items.len(),
            reversed@ == items.subrange(i as int, n as int).reverse(),
            slots@.len() == i,
            forall|k: int| 0 <= k < i ==> #[trigger] slots@[k] == Some(items[k]),
        decreases n - i,
    {
        let ghost before = reversed@;
        match reversed.pop() {
            Some(e) => {
                assert(e == before[before.len() - 1]);
                assert(e == items[i as int]);
                slots.push(Some(e));
            },
            None => {
                assert(false);
            },
        }
        i = i + 1;
        assert(reversed@ =~= items.subrange(i as int, n as int).reverse());
    }
    let mut out: Vec<(BundleFile, Vec<u8>)> = Vec::new();
    let mut k: usize = 0;
    while k < n
        invariant
            k <= n == items.len(),
            order@.len() == n,
            slots@.len() == n,
            all == edit_views(items),
            p == positions(order@),
            is_stable_order(edit_keys(all, file_order@), p),
            forall|j: int|
                k <= j < n ==> slots@[#[trigger] p[j]] == Some(items[p[j]]),
            edit_views(out@) == picked(all, p).take(k as int),
        decreases n - k,
    {
        assert(p[k as int] == order@[k as int] as int);
        let at: usize = order[k];
        let ghost before_slots = slots@;
        let ghost before = out@;
        let mut slot: Option<(BundleFile, Vec<u8>)> = None;
        std::mem::swap(&mut slot, &mut slots[at]);
        match slot {
            Some(e) => {
                let ghost view = edit_view(e);
                out.push(e);
                assert(edit_views(out@) =~= edit_views(before).push(view));
                assert(all[at as int] == edit_view(items[at as int]));
            },
            None => {
                assert(false);
            },
        }
        proof {
            assert(slots@ =~= before_slots.update(at as int, None));
            assert forall|j: int| k < j < n implies slots@[#[trigger] p[j]] == Some(
                items[p[j]],
            ) by {
                assert(crate::sort::comes_before(edit_keys(all, file_order@), p[k as int], p[j]));
                assert(p[j] != at);
            }
        }
        k = k + 1;
        assert(edit_views(out@) =~= picked(all, p).take(k as int));
    }
    assert(edit_views(out@) =~= picked(all, p));
    *edits = out;
}

/// What the first `n` edits put into the new bundle.
pub open spec fn edit_data(edits: Seq<(FileView, Seq<u8>)>, n: nat) -> Seq<u8> {
    joined(edits.map_values(|e: (FileView, Seq<u8>)| e.1), n)
}

/// The index after the edits from `i` on have been put into bundle `bundle_index`
/// one behind the other, the first at `offset`; and where the last one ends, or
/// what is wrong with the first that cannot be put there.
pub open spec fn edits_applied(
    v: IndexView,
    bundle_index: u32,
    edits: Seq<(FileView, Seq<u8>)>,
    i: int,
    offset: int,
) -> (IndexView, Result<int, IndexError>)
    decreases edits.len() - i,
{
    if i < 0 || i >= edits.len() {
        (v, Ok(offset))
    } else {
        let hash = edits[i].0.hash;
        let len = edits[i].1.len();
        if offset > u32::MAX || len > u32::MAX {
            (v, Err(IndexError::TooLarge))
        } else if !v.files.contains_key(hash) {
            (v, Err(IndexError::UnknownHash(hash)))
        } else {
            edits_applied(
                with_file_record(v, hash, bundle_index, offset as u32, len as u32),
                bundle_index,
                edits,
                i + 1,
                offset + len,
            )
        }
    }
}

/// The beginning of the names of our bundles. In the archive they have to be
/// flat.
pub open spec fn bundle_prefix_of(layout: InstallLayout) -> Seq<char> {
    match layout {
        InstallLayout::LooseBundles => "TinyPoe2Smoother/"@,
        InstallLayout::ContentGgpk => "TinyPoe2Smoother_"@,
    }
}

/// The beginning of the names of our bundles.
pub fn custom_bundle_prefix(layout: InstallLayout) -> (r: &'static str)
    ensures
        r@ == bundle_prefix_of(layout),
{
    match layout {
        InstallLayout::LooseBundles => "TinyPoe2Smoother/",
        InstallLayout::ContentGgpk => "TinyPoe2Smoother_",
    }
}

/// The new bundle that replacements go into.
pub struct ReplacementBundle {
    pub bundle_index: u32,
    pub name: String,
    pub data: Vec<u8>,
}

/// The outcome of putting edits into a new bundle `name` of the index `v`: the
/// index afterwards, and the data of the bundle or what is wrong.
pub open spec fn replaced_files(
    v: IndexView,
    name: Seq<char>,
    edits: Seq<(FileView, Seq<u8>)>,
) -> (IndexView, Result<Seq<u8>, IndexError>) {
    let bundle_index = v.bundles.len();
    if bundle_index >= u32::MAX || encode_utf8(name).len() > u32::MAX {
        (v, Err(IndexError::TooLarge))
    } else {
        let (moved, end) = edits_applied(with_bundle(v, name), bundle_index as u32, edits, 0, 0);
        match end {
            Err(e) => (moved, Err(e)),
            Ok(end) => if end > u32::MAX {
                (moved, Err(IndexError::TooLarge))
            } else {
                (
                    with_bundle_size(moved, bundle_index as u32, end as u32),
                    Ok(edit_data(edits, edits.len())),
                )
            },
        }
    }
}

/// Puts edits into a new bundle and leads the index there. The edits go in the
/// order of the index.
pub fn apply_bundle_replacements(
    index: &mut BundleIndex,
    layout: InstallLayout,
    edits: Vec<(BundleFile, Vec<u8>)>,
) -> (r: Result<ReplacementBundle, IndexError>)
    requires
        old(index)@.positions_valid(),
    ensures
        exists|k: nat| is_first_free(old(index)@.bundles, bundle_prefix_of(layout), k) && ({
            let name = #[trigger] custom_name(bundle_prefix_of(layout), k);
            let order = crate::index::order_map(old(index)@.file_order);
            let (after, out) = replaced_files(
                old(index)@,
                name,
                ordered_edits(edit_views(edits@), order),
            );
            &&& final(index)@ == after
            &&& match r {
                Ok(bundle) => out == Ok::<Seq<u8>, IndexError>(bundle.data@) && bundle.name@ == name
                    && bundle.bundle_index == old(index)@.bundles.len(),
                Err(e) => out == Err::<Seq<u8>, IndexError>(e),
            }
        }),
        old(index)@.describes_bytes() && r is Ok ==> final(index)@.describes_bytes(),
        r is Ok ==> final(index)@.positions_valid(),
{
    let ghost start = index@;
    let ghost prefix = bundle_prefix_of(layout);
    let created = index.create_custom_bundle(custom_bundle_prefix(layout));
    let ghost ordinal = choose|k: nat|
        is_first_free(start.bundles, prefix, k) && ({
            let name = #[trigger] custom_name(prefix, k);
            match created {
                Ok(bundle_index) => {
                    &&& start.bundles.len() < u32::MAX
                    &&& encode_utf8(name).len() <= u32::MAX
                    &&& bundle_index == start.bundles.len()
                    &&& index@ == with_bundle(start, name)
                },
                Err(e) => {
                    &&& e == IndexError::TooLarge
                    &&& start.bundles.len() >= u32::MAX || encode_utf8(name).len() > u32::MAX
                    &&& index@ == start
                },
            }
        });
    let ghost name = custom_name(prefix, ordinal);
    let bundle_index: u32 = match created {
        Ok(v) => v,
        Err(e) => return Err(e),
    };
    let order = index.file_order_map();
    let ghost given = edit_views(edits@);
    let mut sorted = edits;
    sort_edits_by_index_order(&mut sorted, &order);
    let ghost all = edit_views(sorted@);
    let ghost parts = all.map_values(|e: (FileView, Seq<u8>)| e.1);
    let ghost grown = with_bundle(start, name);
    let bundle_name = index.bundles[bundle_index as usize].name.clone();
    assert(index@.bundles[bundle_index as int] == index.bundles@[bundle_index as int]@);
    assert(bundle_name@ == name);
    let mut data: Vec<u8> = Vec::new();
    let n: usize = sorted.len();
    let mut i: usize = 0;
    assert(data@ =~= edit_data(all, 0));
    while i < n
        invariant
            i <= n == sorted@.len(),
            all == edit_views(sorted@),
            parts == all.map_values(|e: (FileView, Seq<u8>)| e.1),
            bundle_index < index@.bundles.len(),
            index@.bundles == grown.bundles,
            bundle_index == grown.bundles.len() - 1,
            index@.positions_valid(),
            index@.raw.len() == grown.raw.len(),
            edits_applied(grown, bundle_index, all, 0, 0) == edits_applied(
                index@,
                bundle_index,
                all,
                i as int,
                data@.len() as int,
            ),
            data@ == edit_data(all, i as nat),
            start.describes_bytes() ==> index@.describes_bytes() && index@.size_pos_valid(
                bundle_index as int,
            ),
            is_first_free(start.bundles, prefix, ordinal),
            name == custom_name(prefix, ordinal),
            start == old(index)@,
            prefix == bundle_prefix_of(layout),
            start.bundles.len() < u32::MAX,
            encode_utf8(name).len() <= u32::MAX,
            bundle_index == start.bundles.len(),
            grown == with_bundle(start, name),
            all == ordered_edits(given, crate::index::order_map(start.file_order)),
            given == edit_views(edits@),
        decreases n - i,
    {
        assert(custom_name(bundle_prefix_of(layout), ordinal) == name);
        assert(all[i as int] == edit_view(sorted@[i as int]));
        let offset: usize = data.len();
        let len: usize = sorted[i].1.len();
        if offset > 0xffff_ffff || len > 0xffff_ffff {
            return Err(IndexError::TooLarge);
        }
        let hash: u64 = sorted[i].0.hash;
        match index.update_file_record(hash, bundle_index, offset as u32, len as u32) {
            Ok(_) => {},
            Err(e) => return Err(e),
        }
        push_all(&mut data, sorted[i].1.as_slice());
        i = i + 1;
        proof {
            assert(parts[i - 1] == all[i - 1].1);
        }
    }
    if data.len() > 0xffff_ffff {
        return Err(IndexError::TooLarge);
    }
    proof {
        crate::bytes::lemma_int_bytes();
        assert(grown.bundles[bundle_index as int].size_pos + 4 <= grown.raw.len());
    }
    match index.update_bundle_size(bundle_index, data.len() as u32) {
        Ok(_) => {},
        Err(e) => return Err(e),
    }
    Ok(ReplacementBundle { bundle_index, name: bundle_name, data })
}

/// Edits do not touch files that they do not name.
proof fn lemma_edits_leave_file(
    v: IndexView,
    bundle_index: u32,
    edits: Seq<(FileView, Seq<u8>)>,
    i: int,
    offset: int,
    hash: u64,
)
    requires
        0 <= i <= edits.len(),
        forall|j: int| i <= j < edits.len() ==> (#[trigger] edits[j]).0.hash != hash,
    ensures
        ({
            let (after, _) = edits_applied(v, bundle_index, edits, i, offset);
            &&& after.files.contains_key(hash) == v.files.contains_key(hash)
            &&& v.files.contains_key(hash) ==> after.files[hash] == v.files[hash]
            &&& after.bundles == v.bundles
        }),
    decreases edits.len() - i,
{
    if i < edits.len() {
        let h = edits[i].0.hash;
        let len = edits[i].1.len();
        if offset <= u32::MAX && len <= u32::MAX && v.files.contains_key(h) {
            lemma_edits_leave_file(
                with_file_record(v, h, bundle_index, offset as u32, len as u32),
                bundle_index,
                edits,
                i + 1,
                offset + len,
                hash,
            );
        }
    }
}

/// The last edit of a file decides where the index leads.
proof fn lemma_edit_lands(
    v: IndexView,
    bundle_index: u32,
    edits: Seq<(FileView, Seq<u8>)>,
    i: int,
    offset: int,
    k: int,
)
    requires
        0 <= i <= k < edits.len(),
        forall|j: int| k < j < edits.len() ==> (#[trigger] edits[j]).0.hash != edits[k].0.hash,
        edits_applied(v, bundle_index, edits, i, offset).1 is Ok,
        offset == edit_data(edits, i as nat).len(),
    ensures
        ({
            let after = edits_applied(v, bundle_index, edits, i, offset).0;
            let hash = edits[k].0.hash;
            &&& after.files.contains_key(hash)
            &&& after.files[hash].bundle_index == bundle_index
            &&& after.files[hash].bundle_name == v.bundles[bundle_index as int].name
            &&& after.files[hash].offset == edit_data(edits, k as nat).len()
            &&& after.files[hash].size == edits[k].1.len()
        }),
    decreases edits.len() - i,
{
    let h = edits[i].0.hash;
    let len = edits[i].1.len();
    let next = with_file_record(v, h, bundle_index, offset as u32, len as u32);
    let parts = edits.map_values(|e: (FileView, Seq<u8>)| e.1);
    assert(parts[i] == edits[i].1);
    assert(edit_data(edits, (i + 1) as nat) == edit_data(edits, i as nat) + edits[i].1);
    if i == k {
        lemma_edits_leave_file(next, bundle_index, edits, i + 1, offset + len, h);
    } else {
        lemma_edit_lands(next, bundle_index, edits, i + 1, offset + len, k);
    }
}

/// What one edit put into the bundle lies behind what those before it put there.
proof fn lemma_edit_data_holds(edits: Seq<(FileView, Seq<u8>)>, k: int, n: nat)
    requires
        0 <= k < n <= edits.len(),
    ensures
        ({
            let start = edit_data(edits, k as nat).len() as int;
            &&& start + edits[k].1.len() <= edit_data(edits, n).len()
            &&& edit_data(edits, n).subrange(start, start + edits[k].1.len()) == edits[k].1
        }),
    decreases n,
{
    let parts = edits.map_values(|e: (FileView, Seq<u8>)| e.1);
    let start = edit_data(edits, k as nat).len() as int;
    let before = edit_data(edits, (n - 1) as nat);
    assert(parts[n - 1] == edits[n - 1].1);
    assert(edit_data(edits, n) == before + edits[n - 1].1);
    if k < n - 1 {
        lemma_edit_data_holds(edits, k, (n - 1) as nat);
        assert(edit_data(edits, n).subrange(start, start + edits[k].1.len()) =~= before.subrange(
            start,
            start + edits[k].1.len(),
        ));
    } else {
        assert(edit_data(edits, n).subrange(start, start + edits[k].1.len()) =~= edits[k].1);
    }
}

/// Replaced files read back: where replacing succeeds, the index leads the last
/// replacement of each file into the new bundle, and its bytes lie there.
pub proof fn law_replaced_files_read_back(
    v: IndexView,
    name: Seq<char>,
    edits: Seq<(FileView, Seq<u8>)>,
    k: int,
)
    requires
        0 <= k < edits.len(),
        forall|j: int| k < j < edits.len() ==> (#[trigger] edits[j]).0.hash != edits[k].0.hash,
        replaced_files(v, name, edits).1 is Ok,
    ensures
        ({
            let (after, data) = replaced_files(v, name, edits);
            let hash = edits[k].0.hash;
            &&& after.files.contains_key(hash)
            &&& after.files[hash].bundle_index == v.bundles.len()
            &&& after.files[hash].bundle_name == name
            &&& sliced(data->Ok_0, after.files[hash]) == Some(edits[k].1)
        }),
{
    lemma_edit_lands(with_bundle(v, name), v.bundles.len() as u32, edits, 0, 0, k);
    lemma_edit_data_holds(edits, k, edits.len());
}

/// Files that are not replaced stay where they are: same bundle, offset and size.
pub proof fn law_other_files_stay(
    v: IndexView,
    name: Seq<char>,
    edits: Seq<(FileView, Seq<u8>)>,
    hash: u64,
)
    requires
        v.files.contains_key(hash),
        forall|j: int| 0 <= j < edits.len() ==> (#[trigger] edits[j]).0.hash != hash,
    ensures
        ({
            let (after, _) = replaced_files(v, name, edits);
            &&& after.files.contains_key(hash)
            &&& after.files[hash].bundle_index == v.files[hash].bundle_index
            &&& after.files[hash].bundle_name == v.files[hash].bundle_name
            &&& after.files[hash].offset == v.files[hash].offset
            &&& after.files[hash].size == v.files[hash].size
        }),
{
    if v.bundles.len() < u32::MAX && encode_utf8(name).len() <= u32::MAX {
        lemma_edits_leave_file(
            with_bundle(v, name),
            v.bundles.len() as u32,
            edits,
            0,
            0,
            hash,
        );
    }
}

/// Which of the two files of a loose install has been tried.
#[derive(Debug, Clone, Copy, PartialEq, Eq, Structural)]
pub enum LooseWrite {
    Bundle,
    Index,
}

/// What follows an attempt to write one of the two files.
#[derive(Debug, Clone, Copy, PartialEq, Eq, Structural)]
pub enum AfterLooseWrite {
    WriteIndex,
    Done,
    /// Nothing was written.
    Fail,
    /// The index was not replaced; the new bundle is to be removed again.
    RemoveBundleAndFail,
}

/// The bundle is written before the index that leads to it. Where the index
/// cannot be replaced, the bundle does not stay behind.
pub fn after_loose_write(tried: LooseWrite, written: bool) -> (r: AfterLooseWrite)
    ensures
        r == match (tried, written) {
            (LooseWrite::Bundle, true) => AfterLooseWrite::WriteIndex,
            (LooseWrite::Bundle, false) => AfterLooseWrite::Fail,
            (LooseWrite::Index, true) => AfterLooseWrite::Done,
            (LooseWrite::Index, false) => AfterLooseWrite::RemoveBundleAndFail,
        },
{
    match tried {
        LooseWrite::Bundle => if written {
            AfterLooseWrite::WriteIndex
        } else {
            AfterLooseWrite::Fail
        },
        LooseWrite::Index => if written {
            AfterLooseWrite::Done
        } else {
            AfterLooseWrite::RemoveBundleAndFail
        },
    }
}

/// The next step of writing to the standalone archive.
#[derive(Debug, Clone, Copy, PartialEq, Eq, Structural)]
pub enum ArchiveStep {
    /// Works out what is to be written.
    Plan,
    /// Puts what undoes the patch into the backup.
    PutUndoEntry,
    /// Writes the new records behind the archive.
    WriteRecords,
    /// Turns the pointer of the folder to its new record.
    WritePointer,
    /// Removes the files that lie over the archive.
    RemoveOverlay,
    Done,
    /// There is no backup to put anything into.
    Refuse,
    Fail,
}

/// Writing to the standalone archive.
#[derive(Debug, Clone, Copy, PartialEq, Eq, Structural)]
pub struct ArchiveWrite {
    pub step: ArchiveStep,
    pub has_backup: bool,
}

/// The next step if the last one went through.
pub open spec fn archive_step_if(went: bool, next: ArchiveStep) -> ArchiveStep {
    if went {
        next
    } else {
        ArchiveStep::Fail
    }
}

/// A write after its step, which went through or not.
pub open spec fn after_archive_step(w: ArchiveWrite, went: bool) -> ArchiveWrite {
    let step = match w.step {
        ArchiveStep::Plan => archive_step_if(
            went,
            if w.has_backup {
                ArchiveStep::PutUndoEntry
            } else {
                ArchiveStep::Refuse
            },
        ),
        ArchiveStep::PutUndoEntry => archive_step_if(went, ArchiveStep::WriteRecords),
        ArchiveStep::WriteRecords => archive_step_if(went, ArchiveStep::WritePointer),
        ArchiveStep::WritePointer => archive_step_if(went, ArchiveStep::RemoveOverlay),
        ArchiveStep::RemoveOverlay => archive_step_if(went, ArchiveStep::Done),
        last => last,
    };
    ArchiveWrite { step, ..w }
}

impl ArchiveWrite {
    /// A write before its first step. `has_backup` says whether there is a backup
    /// to put something into.
    pub fn new(has_backup: bool) -> (r: ArchiveWrite)
        ensures
            r == (ArchiveWrite { step: ArchiveStep::Plan, has_backup }),
    {
        ArchiveWrite { step: ArchiveStep::Plan, has_backup }
    }

    /// Tells the write whether its step went through, and gives the next one.
    pub fn handle(&mut self, went: bool) -> (r: ArchiveStep)
        ensures
            *final(self) == after_archive_step(*old(self), went),
            r == final(self).step,
    {
        let next = match self.step {
            ArchiveStep::Plan => if self.has_backup {
                ArchiveStep::PutUndoEntry
            } else {
                ArchiveStep::Refuse
            },
            ArchiveStep::PutUndoEntry => ArchiveStep::WriteRecords,
            ArchiveStep::WriteRecords => ArchiveStep::WritePointer,
            ArchiveStep::WritePointer => ArchiveStep::RemoveOverlay,
            ArchiveStep::RemoveOverlay => ArchiveStep::Done,
            last => return last,
        };
        self.step = if went {
            next
        } else {
            ArchiveStep::Fail
        };
        self.step
    }
}

/// A write after the first `n` steps, given which of them went through.
pub open spec fn archive_write_after(has_backup: bool, went: Seq<bool>, n: nat) -> ArchiveWrite
    decreases n,
{
    if n == 0 {
        ArchiveWrite { step: ArchiveStep::Plan, has_backup }
    } else {
        after_archive_step(archive_write_after(has_backup, went, (n - 1) as nat), went[n - 1])
    }
}

/// How many steps come before this one where all go through.
pub open spec fn archive_steps_before(step: ArchiveStep) -> nat {
    match step {
        ArchiveStep::PutUndoEntry => 1,
        ArchiveStep::WriteRecords => 2,
        ArchiveStep::WritePointer => 3,
        ArchiveStep::RemoveOverlay => 4,
        ArchiveStep::Done => 5,
        _ => 0,
    }
}

/// The archive is written to, and the write is done, only where there is a backup,
/// and only after what undoes the patch was put into it: a write without a backup
/// never comes to a step that changes the archive. The pointer is turned only after
/// the records that it leads to are there.
pub proof fn law_archive_is_written_after_its_undo_entry(
    has_backup: bool,
    went: Seq<bool>,
    n: nat,
)
    requires
        n <= went.len(),
    ensures
        ({
            let w = archive_write_after(has_backup, went, n);
            let before = archive_steps_before(w.step);
            &&& w.has_backup == has_backup
            &&& before <= n
            &&& before >= 1 ==> has_backup
            &&& forall|i: int| 0 <= i < before ==> #[trigger] went[i]
            &&& w.step is Refuse ==> !has_backup
        }),
    decreases n,
{
    if n > 0 {
        let m = (n - 1) as nat;
        law_archive_is_written_after_its_undo_entry(has_backup, went, m);
        lemma_archive_steps_are_counted(has_backup, went, m);
    }
}

/// A write that has not ended has taken as many steps as come before its own.
proof fn lemma_archive_steps_are_counted(has_backup: bool, went: Seq<bool>, n: nat)
    ensures
        ({
            let step = archive_write_after(has_backup, went, n).step;
            step is Done || step is Refuse || step is Fail || archive_steps_before(step) == n
        }),
    decreases n,
{
    if n > 0 {
        lemma_archive_steps_are_counted(has_backup, went, (n - 1) as nat);
    }
}

/// The files that a successful write has touched, in the order of writing.
pub open spec fn touched(
    layout: InstallLayout,
    bundle_path: Seq<char>,
    index_path: Seq<char>,
    content_path: Seq<char>,
) -> Seq<Seq<char>> {
    match layout {
        InstallLayout::LooseBundles => seq![bundle_path, index_path],
        InstallLayout::ContentGgpk => seq![content_path],
    }
}

/// The report on a successful write.
pub fn write_report(
    layout: InstallLayout,
    bundle_path: String,
    index_path: String,
    content_path: String,
) -> (r: BundleWriteReport)
    ensures
        texts(r.touched_paths@) == touched(layout, bundle_path@, index_path@, content_path@),
{
    let mut touched_paths: Vec<String> = Vec::new();
    match layout {
        InstallLayout::LooseBundles => {
            touched_paths.push(bundle_path);
            touched_paths.push(index_path);
        },
        InstallLayout::ContentGgpk => {
            touched_paths.push(content_path);
        },
    }
    assert(texts(touched_paths@) =~= touched(layout, bundle_path@, index_path@, content_path@));
    BundleWriteReport { touched_paths }
}

} // verus!
