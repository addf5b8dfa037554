//! Patching the standalone archive: records are appended, and one pointer is
//! turned to them.

use crate::backup::GgpkBackupMeta;
use crate::bytes::{
    holds_at, le_at, lemma_holds_split, lemma_holds_u16, lemma_holds_u32, lemma_holds_u64,
    lemma_int_bytes, push_all, push_u32, push_u64, u16_bytes, u32_at, u32_bytes, u64_at, u64_bytes,
};
use crate::ggpk::{
    entry_views, file_below, file_in_children, ggpk_find_pdir, ggpk_path, may_contain, name32_from,
    name_at, pdir_below, pdir_in, pdir_in_children, tag_file, tag_of, tag_pdir, units_from,
    EntryView, GgpkArchive, GgpkError, GgpkPdirEntry, PdirView, RecordTag,
};
use crate::hashing::{murmur2_32, murmur2_32_of};
use crate::sort::{is_stable_order, picked, positions, stable_order, stable_positions};
use crate::text::{
    chars_of, lower_all, lower_chars, push_chars, same_chars, string_of, to_lowercase,
    unicode_lowercase,
};
use crate::utf16::{encode_units, law_utf16_round_trip, unit_bytes, units_to_bytes, utf16_units};
use vstd::prelude::*;

verus! {

/// The characters as numbers of four bytes.
pub open spec fn utf32_bytes(name: Seq<char>) -> Seq<u8>
    decreases name.len(),
{
    if name.len() == 0 {
        Seq::empty()
    } else {
        utf32_bytes(name.drop_last()) + u32_bytes(name.last() as u32)
    }
}

/// A name in the archive's spelling, with the zero that ends it.
pub open spec fn name_bytes(name: Seq<char>, utf32: bool) -> Seq<u8> {
    if utf32 {
        utf32_bytes(name) + u32_bytes(0)
    } else {
        unit_bytes(utf16_units(name)) + u16_bytes(0)
    }
}

/// A name in the archive's spelling, with the zero that ends it.
pub fn ggpk_name_bytes(name: &[char], utf32: bool) -> (r: Vec<u8>)
    ensures
        r@ == name_bytes(name@, utf32),
{
    if utf32 {
        let n: usize = name.len();
        let mut out: Vec<u8> = Vec::new();
        let mut i: usize = 0;
        assert(name@.take(0) =~= Seq::<char>::empty());
        while i < n
            invariant
                i <= n == name@.len(),
                out@ == utf32_bytes(name@.take(i as int)),
            decreases n - i,
        {
            push_u32(&mut out, name[i] as u32);
            i = i + 1;
            assert(name@.take(i as int).drop_last() =~= name@.take(i - 1));
        }
        assert(name@.take(n as int) =~= name@);
        push_u32(&mut out, 0);
        out
    } else {
        let units = encode_units(name);
        let mut out = units_to_bytes(units.as_slice());
        crate::bytes::push_u16(&mut out, 0);
        out
    }
}

/// The number of characters of a name, with the zero that ends it.
pub fn ggpk_name_units(name: &[char]) -> (r: Result<u32, GgpkError>)
    ensures
        match r {
            Ok(n) => n == name@.len() + 1,
            Err(e) => name@.len() + 1 > u32::MAX && e == GgpkError::TooLarge,
        },
{
    if name.len() >= 0xffff_ffff {
        Err(GgpkError::TooLarge)
    } else {
        Ok(name.len() as u32 + 1)
    }
}

/// The hash under which a folder record lists a name.
pub open spec fn name_hash_of(name: Seq<char>) -> u32 {
    lowercase_name_hash_of(unicode_lowercase(name))
}

/// The hash of a name that is in lower case.
pub open spec fn lowercase_name_hash_of(lower: Seq<char>) -> u32 {
    murmur2_32_of(unit_bytes(utf16_units(lower)))
}

/// The hash of a name that is in lower case.
pub fn lowercase_name_hash(lower: &[char]) -> (h: u32)
    ensures
        h == lowercase_name_hash_of(lower@),
{
    let units = encode_units(lower);
    let bytes = units_to_bytes(units.as_slice());
    murmur2_32(bytes.as_slice())
}

/// The hash under which a folder record lists a name.
pub fn ggpk_name_hash(name: &str) -> (h: u32)
    ensures
        h == name_hash_of(name@),
{
    let lower = to_lowercase(name);
    let chars = chars_of(lower.as_str());
    lowercase_name_hash(chars.as_slice())
}

pub open spec fn zeros(n: nat) -> Seq<u8> {
    Seq::new(n, |i: int| 0u8)
}

/// The bytes of a file record.
pub open spec fn file_record(name: Seq<char>, data: Seq<u8>, utf32: bool) -> Result<
    Seq<u8>,
    GgpkError,
> {
    let size = 44 + name_bytes(name, utf32).len() + data.len();
    if size > u32::MAX || name.len() + 1 > u32::MAX {
        Err(GgpkError::TooLarge)
    } else {
        Ok(
            u32_bytes(size as u32) + (tag_file() + (u32_bytes((name.len() + 1) as u32) + (zeros(32)
                + (name_bytes(name, utf32) + data)))),
        )
    }
}

/// The first `n` entries of a folder record.
pub open spec fn entry_table(entries: Seq<EntryView>, n: nat) -> Seq<u8>
    decreases n,
{
    if n == 0 {
        Seq::empty()
    } else {
        let e = entries[n - 1];
        entry_table(entries, (n - 1) as nat) + (u32_bytes(e.name_hash) + u64_bytes(e.offset))
    }
}

/// The bytes of a folder record.
pub open spec fn pdir_record(
    name: Seq<char>,
    digest: Seq<u8>,
    entries: Seq<EntryView>,
    utf32: bool,
) -> Result<Seq<u8>, GgpkError> {
    let size = 48 + name_bytes(name, utf32).len() + 12 * entries.len();
    if size > u32::MAX || name.len() + 1 > u32::MAX {
        Err(GgpkError::TooLarge)
    } else {
        Ok(
            u32_bytes(size as u32) + (tag_pdir() + (u32_bytes((name.len() + 1) as u32) + (u32_bytes(
                entries.len() as u32,
            ) + (digest + (name_bytes(name, utf32) + entry_table(entries, entries.len())))))),
        )
    }
}

fn push_tag(out: &mut Vec<u8>, w: u8, x: u8, y: u8, z: u8)
    ensures
        final(out)@ == old(out)@ + seq![w, x, y, z],
{
    let ghost start = out@;
    out.push(w);
    out.push(x);
    out.push(y);
    out.push(z);
    assert(out@ =~= start + seq![w, x, y, z]);
}

fn push_zeros(out: &mut Vec<u8>, n: usize)
    ensures
        final(out)@ == old(out)@ + zeros(n as nat),
{
    let ghost start = out@;
    let mut i: usize = 0;
    while i < n
        invariant
            i <= n,
            out@ == start + zeros(i as nat),
        decreases n - i,
    {
        out.push(0);
        i = i + 1;
        assert(out@ =~= start + zeros(i as nat));
    }
}

/// The bytes of a file record.
pub fn ggpk_file_record(name: &[char], data: &[u8], utf32: bool) -> (r: Result<
    Vec<u8>,
    GgpkError,
>)
    ensures
        match r {
            Ok(b) => file_record(name@, data@, utf32) == Ok::<Seq<u8>, GgpkError>(b@),
            Err(e) => file_record(name@, data@, utf32) == Err::<Seq<u8>, GgpkError>(e),
        },
{
    let encoded = ggpk_name_bytes(name, utf32);
    if encoded.len() > 0xffff_ffff || data.len() > 0xffff_ffff {
        return Err(GgpkError::TooLarge);
    }
    let size: u64 = 44 + encoded.len() as u64 + data.len() as u64;
    if size > 0xffff_ffff {
        return Err(GgpkError::TooLarge);
    }
    let units: u32 = match ggpk_name_units(name) {
        Ok(v) => v,
        Err(e) => return Err(e),
    };
    let mut out: Vec<u8> = Vec::new();
    push_u32(&mut out, size as u32);
    push_tag(&mut out, 70, 73, 76, 69);
    push_u32(&mut out, units);
    push_zeros(&mut out, 32);
    push_all(&mut out, encoded.as_slice());
    push_all(&mut out, data);
    assert(out@ =~= file_record(name@, data@, utf32)->Ok_0);
    Ok(out)
}

/// The bytes of a folder record.
pub fn ggpk_pdir_record(
    name: &[char],
    digest: &[u8],
    entries: &Vec<GgpkPdirEntry>,
    utf32: bool,
) -> (r: Result<Vec<u8>, GgpkError>)
    ensures
        match r {
            Ok(b) => pdir_record(name@, digest@, entry_views(entries@), utf32) == Ok::<
                Seq<u8>,
                GgpkError,
            >(b@),
            Err(e) => pdir_record(name@, digest@, entry_views(entries@), utf32) == Err::<
                Seq<u8>,
                GgpkError,
            >(e),
        },
{
    let ghost views = entry_views(entries@);
    let encoded = ggpk_name_bytes(name, utf32);
    let n: usize = entries.len();
    if encoded.len() > 0xffff_ffff || n > 0xffff_ffff {
        return Err(GgpkError::TooLarge);
    }
    let size: u64 = 48 + encoded.len() as u64 + 12 * n as u64;
    if size > 0xffff_ffff {
        return Err(GgpkError::TooLarge);
    }
    let units: u32 = match ggpk_name_units(name) {
        Ok(v) => v,
        Err(e) => return Err(e),
    };
    let mut out: Vec<u8> = Vec::new();
    push_u32(&mut out, size as u32);
    push_tag(&mut out, 80, 68, 73, 82);
    push_u32(&mut out, units);
    push_u32(&mut out, n as u32);
    push_all(&mut out, digest);
    push_all(&mut out, encoded.as_slice());
    let ghost base = out@;
    let mut i: usize = 0;
    assert(out@ =~= base + entry_table(views, 0));
    while i < n
        invariant
            i <= n == entries@.len(),
            views == entry_views(entries@),
            out@ == base + entry_table(views, i as nat),
        decreases n - i,
    {
        assert(views[i as int] == entries@[i as int]@);
        push_u32(&mut out, entries[i].name_hash);
        push_u64(&mut out, entries[i].offset);
        i = i + 1;
        assert(out@ =~= base + entry_table(views, i as nat));
    }
    assert(out@ =~= pdir_record(name@, digest@, views, utf32)->Ok_0);
    Ok(out)
}

/// What a patch of the archive does, and what undoes it.
pub struct GgpkPatchPlan {
    pub backup: GgpkBackupMeta,
    pub append_bytes: Vec<u8>,
    pub new_bundles2_offset: u64,
}

/// What a `GgpkPatchPlan` says.
pub struct PlanView {
    pub backup: GgpkBackupMeta,
    pub append_bytes: Seq<u8>,
    pub new_bundles2_offset: u64,
}

impl View for GgpkPatchPlan {
    type V = PlanView;

    open spec fn view(&self) -> PlanView {
        PlanView {
            backup: self.backup,
            append_bytes: self.append_bytes@,
            new_bundles2_offset: self.new_bundles2_offset,
        }
    }
}

pub open spec fn is_index_name(name: Seq<char>) -> bool {
    lower_all(name) == lower_all("_.index.bin"@)
}

/// The entries of the folder with the index at another offset.
pub open spec fn repointed(entries: Seq<EntryView>, offset: u64) -> Seq<EntryView> {
    entries.map_values(
        |e: EntryView|
            if is_index_name(e.name) {
                EntryView { offset, ..e }
            } else {
                e
            },
    )
}

pub open spec fn entry_keys(entries: Seq<EntryView>) -> Seq<u64> {
    entries.map_values(|e: EntryView| e.name_hash as u64)
}

/// The entries by their hash; those with the same hash stay in their order.
pub open spec fn sorted_entries(entries: Seq<EntryView>) -> Seq<EntryView> {
    picked(entries, stable_order(entry_keys(entries)))
}

pub open spec fn has_index(entries: Seq<EntryView>) -> bool {
    exists|i: int| 0 <= i < entries.len() && is_index_name((#[trigger] entries[i]).name)
}

pub open spec fn custom_file_name(bundle_name: Seq<char>) -> Seq<char> {
    bundle_name + ".bundle.bin"@
}

/// The entries of the new folder record: those of the old with the index at its
/// new place, and the new bundle.
pub open spec fn patched_entries(
    entries: Seq<EntryView>,
    bundle_name: Seq<char>,
    index_offset: u64,
    bundle_offset: u64,
) -> Seq<EntryView> {
    sorted_entries(
        repointed(entries, index_offset).push(
            EntryView {
                name: custom_file_name(bundle_name),
                name_hash: name_hash_of(custom_file_name(bundle_name)),
                offset: bundle_offset,
            },
        ),
    )
}

/// The plan for a folder that was found and whose pointer stands at `pos`.
#[verifier::opaque]
pub open spec fn plan_for(
    folder: PdirView,
    pos: int,
    utf32: bool,
    archive_len: u64,
    bundle_name: Seq<char>,
    bundle: Seq<u8>,
    index: Seq<u8>,
) -> Result<PlanView, GgpkError> {
    if bundle_name.contains('/') || bundle_name.contains('\\') {
        Err(GgpkError::NameNotFlat)
    } else {
        match file_record("_.index.bin"@, index, utf32) {
            Err(e) => Err(e),
            Ok(index_record) => match file_record(custom_file_name(bundle_name), bundle, utf32) {
                Err(e) => Err(e),
                Ok(bundle_record) => {
                    let bundle_offset = archive_len + index_record.len();
                    let folder_offset = bundle_offset + bundle_record.len();
                    if folder_offset > u64::MAX {
                        Err(GgpkError::TooLarge)
                    } else if !has_index(folder.entries) {
                        Err(GgpkError::NoIndex)
                    } else {
                        let entries = patched_entries(
                            folder.entries,
                            bundle_name,
                            archive_len,
                            bundle_offset as u64,
                        );
                        match pdir_record(folder.name, folder.digest, entries, utf32) {
                            Err(e) => Err(e),
                            Ok(folder_record) => {
                                let end = folder_offset + folder_record.len();
                                if end > u64::MAX {
                                    Err(GgpkError::TooLarge)
                                } else {
                                    Ok(
                                        PlanView {
                                            backup: GgpkBackupMeta {
                                                bundles2_offset_pos: pos as u64,
                                                original_bundles2_offset: folder.offset as u64,
                                                appended_start: archive_len,
                                                appended_end: end as u64,
                                            },
                                            append_bytes: index_record + (bundle_record
                                                + folder_record),
                                            new_bundles2_offset: folder_offset as u64,
                                        },
                                    )
                                }
                            },
                        }
                    }
                },
            },
        }
    }
}

/// What puts a new index and a new bundle into the archive `s`, whose file is
/// `archive_len` bytes long.
pub open spec fn patch_plan(
    s: Seq<u8>,
    utf32: bool,
    archive_len: u64,
    bundle_name: Seq<char>,
    bundle: Seq<u8>,
    index: Seq<u8>,
) -> Result<PlanView, GgpkError> {
    match pdir_in(s, utf32, "Bundles2"@) {
        Err(e) => Err(e),
        Ok(None) => Err(GgpkError::NoBundlesDir),
        Ok(Some(folder)) => match folder.parent_offset_pos {
            None => Err(GgpkError::NoParentPointer),
            Some(pos) => plan_for(folder, pos, utf32, archive_len, bundle_name, bundle, index),
        },
    }
}

fn same_ignoring_case(a: &str, b: &str) -> (r: bool)
    ensures
        r == (lower_all(a@) == lower_all(b@)),
{
    let x = chars_of(a);
    let y = chars_of(b);
    let p = lower_chars(x.as_slice());
    let q = lower_chars(y.as_slice());
    same_chars(p.as_slice(), q.as_slice())
}

fn copy_entry(e: &GgpkPdirEntry) -> (r: GgpkPdirEntry)
    ensures
        r@ == e@,
{
    GgpkPdirEntry { name: e.name.clone(), name_hash: e.name_hash, offset: e.offset }
}

/// The entries with the index at another offset, and whether there is one.
fn repoint(entries: &Vec<GgpkPdirEntry>, offset: u64) -> (r: (Vec<GgpkPdirEntry>, bool))
    ensures
        entry_views(r.0@) == repointed(entry_views(entries@), offset),
        r.1 == has_index(entry_views(entries@)),
{
    let ghost views = entry_views(entries@);
    let n: usize = entries.len();
    let mut out: Vec<GgpkPdirEntry> = Vec::new();
    let mut found: bool = false;
    let mut i: usize = 0;
    while i < n
        invariant
            i <= n == entries@.len(),
            views == entry_views(entries@),
            out@.len() == i,
            entry_views(out@) == repointed(views, offset).take(i as int),
            found <==> exists|k: int| 0 <= k < i && is_index_name((#[trigger] views[k]).name),
        decreases n - i,
    {
        assert(views[i as int] == entries@[i as int]@);
        let mut entry = copy_entry(&entries[i]);
        if same_ignoring_case(entry.name.as_str(), "_.index.bin") {
            entry.offset = offset;
            found = true;
        }
        let ghost before = out@;
        let ghost view = entry@;
        out.push(entry);
        i = i + 1;
        assert(entry_views(out@) =~= entry_views(before).push(view));
        assert(entry_views(out@) =~= repointed(views, offset).take(i as int));
    }
    assert(entry_views(out@) =~= repointed(views, offset));
    (out, found)
}

fn sort_entries(entries: &Vec<GgpkPdirEntry>) -> (r: Vec<GgpkPdirEntry>)
    ensures
        entry_views(r@) == sorted_entries(entry_views(entries@)),
{
    let ghost views = entry_views(entries@);
    let n: usize = entries.len();
    let mut keys: Vec<u64> = Vec::new();
    let mut i: usize = 0;
    while i < n
        invariant
            i <= n == entries@.len(),
            views == entry_views(entries@),
            keys@ == entry_keys(views).take(i as int),
        decreases n - i,
    {
        assert(views[i as int] == entries@[i as int]@);
        keys.push(entries[i].name_hash as u64);
        i = i + 1;
        assert(keys@ =~= entry_keys(views).take(i as int));
    }
    assert(keys@ =~= entry_keys(views));
    let order = stable_positions(&keys);
    let ghost p = positions(order@);
    let mut out: Vec<GgpkPdirEntry> = Vec::new();
    let mut k: usize = 0;
    while k < n
        invariant
            k <= n == entries@.len(),
            order@.len() == n,
            views == entry_views(entries@),
            p == positions(order@),
            is_stable_order(entry_keys(views), p),
            entry_views(out@) == picked(views, p).take(k as int),
        decreases n - k,
    {
        assert(p[k as int] == order@[k as int] as int);
        let at: usize = order[k];
        assert(views[at as int] == entries@[at as int]@);
        let ghost before = out@;
        let entry = copy_entry(&entries[at]);
        let ghost view = entry@;
        out.push(entry);
        k = k + 1;
        assert(entry_views(out@) =~= entry_views(before).push(view));
        assert(entry_views(out@) =~= picked(views, p).take(k as int));
    }
    assert(entry_views(out@) =~= picked(views, p));
    out
}

fn has_separator(s: &[char]) -> (r: bool)
    ensures
        r == (s@.contains('/') || s@.contains('\\')),
{
    let n: usize = s.len();
    let mut i: usize = 0;
    while i < n
        invariant
            i <= n == s@.len(),
            forall|k: int| 0 <= k < i ==> s@[k] != '/' && s@[k] != '\\',
        decreases n - i,
    {
        if s[i] == '/' || s[i] == '\\' {
            assert(s@[i as int] == s@[i as int]);
            return true;
        }
        i = i + 1;
    }
    false
}

/// Prepares a patch that puts a new index and a new bundle into the archive.
/// `archive_len` is the length of the archive's file.
pub fn prepare_ggpk_patch(
    ggpk: &GgpkArchive,
    archive_len: u64,
    custom_bundle_name: &str,
    custom_bundle_bytes: &[u8],
    index_bytes: &[u8],
) -> (r: Result<GgpkPatchPlan, GgpkError>)
    ensures
        match r {
            Ok(plan) => patch_plan(
                ggpk.bytes@,
                ggpk.utf32_paths,
                archive_len,
                custom_bundle_name@,
                custom_bundle_bytes@,
                index_bytes@,
            ) == Ok::<PlanView, GgpkError>(plan@),
            Err(e) => patch_plan(
                ggpk.bytes@,
                ggpk.utf32_paths,
                archive_len,
                custom_bundle_name@,
                custom_bundle_bytes@,
                index_bytes@,
            ) == Err::<PlanView, GgpkError>(e),
        },
{
    proof {
        reveal(plan_for);
    }
    let utf32: bool = ggpk.use_utf32();
    let bundles2 = match ggpk_find_pdir(ggpk, "Bundles2") {
        Ok(Some(v)) => v,
        Ok(None) => return Err(GgpkError::NoBundlesDir),
        Err(e) => return Err(e),
    };
    let offset_pos: u64 = match bundles2.parent_offset_pos {
        Some(v) => v,
        None => return Err(GgpkError::NoParentPointer),
    };
    let name_chars = chars_of(custom_bundle_name);
    if has_separator(name_chars.as_slice()) {
        return Err(GgpkError::NameNotFlat);
    }
    let index_name = chars_of("_.index.bin");
    let index_record = match ggpk_file_record(index_name.as_slice(), index_bytes, utf32) {
        Ok(v) => v,
        Err(e) => return Err(e),
    };
    let mut file_name_chars = chars_of(custom_bundle_name);
    let suffix = chars_of(".bundle.bin");
    push_chars(&mut file_name_chars, suffix.as_slice());
    assert(file_name_chars@ =~= custom_file_name(custom_bundle_name@));
    let bundle_record = match ggpk_file_record(
        file_name_chars.as_slice(),
        custom_bundle_bytes,
        utf32,
    ) {
        Ok(v) => v,
        Err(e) => return Err(e),
    };
    let appended: u64 = match (index_record.len() as u64).checked_add(bundle_record.len() as u64) {
        Some(v) => v,
        None => return Err(GgpkError::TooLarge),
    };
    let folder_offset: u64 = match archive_len.checked_add(appended) {
        Some(v) => v,
        None => return Err(GgpkError::TooLarge),
    };
    let bundle_offset: u64 = archive_len + index_record.len() as u64;
    let (mut entries, found) = repoint(&bundles2.entries, archive_len);
    if !found {
        return Err(GgpkError::NoIndex);
    }
    let file_name = string_of(file_name_chars.as_slice());
    let name_hash: u32 = ggpk_name_hash(file_name.as_str());
    let ghost before = entries@;
    let entry = GgpkPdirEntry { name: file_name, name_hash, offset: bundle_offset };
    let ghost view = entry@;
    entries.push(entry);
    assert(entry_views(entries@) =~= entry_views(before).push(view));
    let sorted = sort_entries(&entries);
    let folder_name = chars_of(bundles2.name.as_str());
    let folder_record = match ggpk_pdir_record(
        folder_name.as_slice(),
        bundles2.digest.as_slice(),
        &sorted,
        utf32,
    ) {
        Ok(v) => v,
        Err(e) => return Err(e),
    };
    let end: u64 = match folder_offset.checked_add(folder_record.len() as u64) {
        Some(v) => v,
        None => return Err(GgpkError::TooLarge),
    };
    let mut append_bytes: Vec<u8> = Vec::new();
    push_all(&mut append_bytes, index_record.as_slice());
    push_all(&mut append_bytes, bundle_record.as_slice());
    push_all(&mut append_bytes, folder_record.as_slice());
    assert(append_bytes@ =~= index_record@ + (bundle_record@ + folder_record@));
    Ok(
        GgpkPatchPlan {
            backup: GgpkBackupMeta {
                bundles2_offset_pos: offset_pos,
                original_bundles2_offset: bundles2.offset,
                appended_start: archive_len,
                appended_end: end,
            },
            append_bytes,
            new_bundles2_offset: folder_offset,
        },
    )
}

/// A write into a file: `bytes` from `pos` on.
pub struct FileWrite {
    pub pos: u64,
    pub bytes: Vec<u8>,
}

/// A file after `b` has been written from `pos` on.
pub open spec fn written(s: Seq<u8>, pos: int, b: Seq<u8>) -> Seq<u8> {
    let end = pos + b.len();
    s.subrange(0, pos) + b + s.subrange(
        if end < s.len() {
            end
        } else {
            s.len() as int
        },
        s.len() as int,
    )
}

/// The archive after a patch.
pub open spec fn patched_archive(s: Seq<u8>, plan: PlanView) -> Seq<u8> {
    written(
        written(s, plan.backup.appended_start as int, plan.append_bytes),
        plan.backup.bundles2_offset_pos as int,
        u64_bytes(plan.new_bundles2_offset),
    )
}

/// The archive after a restore. What a patch has appended goes away, unless
/// something was appended behind it.
pub open spec fn restored_archive(s: Seq<u8>, meta: GgpkBackupMeta) -> Seq<u8> {
    let t = written(
        s,
        meta.bundles2_offset_pos as int,
        u64_bytes(meta.original_bundles2_offset),
    );
    if t.len() == meta.appended_end {
        t.subrange(0, meta.appended_start as int)
    } else {
        t
    }
}

/// The writes of a patch, in order: the new records first, then the pointer to
/// them. `current_len` is the length of the archive's file now.
pub fn apply_ggpk_patch(plan: &GgpkPatchPlan, current_len: u64) -> (r: Result<
    (FileWrite, FileWrite),
    GgpkError,
>)
    ensures
        match r {
            Ok((records, pointer)) => {
                &&& current_len == plan.backup.appended_start
                &&& records.pos == plan.backup.appended_start
                &&& records.bytes@ == plan.append_bytes@
                &&& pointer.pos == plan.backup.bundles2_offset_pos
                &&& pointer.bytes@ == u64_bytes(plan.new_bundles2_offset)
            },
            Err(e) => current_len != plan.backup.appended_start && e == GgpkError::ArchiveChanged,
        },
        r matches Ok((records, pointer)) ==> forall|s: Seq<u8>|
            s.len() == current_len ==> #[trigger] patched_archive(s, plan@) == written(
                written(s, records.pos as int, records.bytes@),
                pointer.pos as int,
                pointer.bytes@,
            ),
{
    if current_len != plan.backup.appended_start {
        return Err(GgpkError::ArchiveChanged);
    }
    let mut records: Vec<u8> = Vec::new();
    push_all(&mut records, plan.append_bytes.as_slice());
    let mut pointer: Vec<u8> = Vec::new();
    push_u64(&mut pointer, plan.new_bundles2_offset);
    assert(records@ =~= plan.append_bytes@);
    assert(pointer@ =~= u64_bytes(plan.new_bundles2_offset));
    Ok(
        (
            FileWrite { pos: plan.backup.appended_start, bytes: records },
            FileWrite { pos: plan.backup.bundles2_offset_pos, bytes: pointer },
        ),
    )
}

/// The write of a restore, and the length to cut the file to afterwards, if it is
/// to be cut. `len_after_write` is the length of the archive's file once the
/// write is done.
pub fn restore_ggpk_backup(meta: GgpkBackupMeta, len_after_write: u64) -> (r: (
    FileWrite,
    Option<u64>,
))
    ensures
        r.0.pos == meta.bundles2_offset_pos,
        r.0.bytes@ == u64_bytes(meta.original_bundles2_offset),
        r.1 == (if len_after_write == meta.appended_end {
            Some(meta.appended_start)
        } else {
            None
        }),
        forall|s: Seq<u8>|
            written(s, r.0.pos as int, r.0.bytes@).len() == len_after_write
                ==> #[trigger] restored_archive(s, meta) == (match r.1 {
                Some(len) => written(s, r.0.pos as int, r.0.bytes@).subrange(0, len as int),
                None => written(s, r.0.pos as int, r.0.bytes@),
            }),
{
    let mut bytes: Vec<u8> = Vec::new();
    push_u64(&mut bytes, meta.original_bundles2_offset);
    assert(bytes@ =~= u64_bytes(meta.original_bundles2_offset));
    let cut: Option<u64> = if len_after_write == meta.appended_end {
        Some(meta.appended_start)
    } else {
        None
    };
    (FileWrite { pos: meta.bundles2_offset_pos, bytes }, cut)
}

/// The pointer to a folder that was found holds the offset of the folder.
proof fn lemma_folder_pointer(
    s: Seq<u8>,
    utf32: bool,
    offset: int,
    base: Seq<char>,
    wanted: Seq<char>,
    parent: Option<int>,
    depth: nat,
)
    requires
        0 <= offset,
        pdir_below(s, utf32, offset, base, wanted, parent, depth) matches Ok(Some(_)),
    ensures
        ({
            let folder = (pdir_below(s, utf32, offset, base, wanted, parent, depth)->Ok_0)->0;
            ||| folder.offset == offset && folder.parent_offset_pos == parent
            ||| points_at(s, folder)
        }),
    decreases depth, 0int,
{
    if offset + 8 <= s.len() && depth > 0 {
        let size = u32_at(s, offset) as int;
        let tag = tag_of(s.subrange(offset + 4, offset + 8));
        if tag == Ok::<RecordTag, GgpkError>(RecordTag::Ggpk) {
            let count = if size < 12 {
                0
            } else {
                (size - 12) / 8
            };
            lemma_folder_pointer_in_children(
                s,
                utf32,
                offset + 12,
                8,
                0,
                count,
                base,
                wanted,
                (depth - 1) as nat,
            );
        } else if tag == Ok::<RecordTag, GgpkError>(RecordTag::Pdir) {
            let (name, end) = name_at(s, offset + 48, utf32)->Ok_0;
            let path = ggpk_path(base, name);
            if path != wanted {
                lemma_name_end(s, offset + 48, utf32);
                lemma_folder_pointer_in_children(
                    s,
                    utf32,
                    end + 4,
                    12,
                    0,
                    u32_at(s, offset + 12) as int,
                    path,
                    wanted,
                    (depth - 1) as nat,
                );
            }
        }
    }
}

/// Whether the pointer to a folder lies in the archive and holds its offset.
pub open spec fn points_at(s: Seq<u8>, folder: PdirView) -> bool {
    match folder.parent_offset_pos {
        Some(p) => 0 <= p && p + 8 <= s.len() && u64_at(s, p) == folder.offset,
        None => false,
    }
}

proof fn lemma_folder_pointer_in_children(
    s: Seq<u8>,
    utf32: bool,
    pos: int,
    stride: int,
    i: int,
    n: int,
    base: Seq<char>,
    wanted: Seq<char>,
    depth: nat,
)
    requires
        0 <= pos,
        0 <= stride,
        0 <= i,
        pdir_in_children(s, utf32, pos, stride, i, n, base, wanted, depth) matches Ok(Some(_)),
    ensures
        points_at(
            s,
            (pdir_in_children(s, utf32, pos, stride, i, n, base, wanted, depth)->Ok_0)->0,
        ),
    decreases depth, 1 + n - i,
{
    let p = pos + stride * i;
    assert(p >= 0) by (nonlinear_arith)
        requires
            p == pos + stride * i,
            0 <= pos,
            0 <= stride,
            0 <= i,
    ;
    let child = pdir_below(s, utf32, u64_at(s, p) as int, base, wanted, Some(p), depth);
    if child matches Ok(Some(_)) {
        lemma_folder_pointer(s, utf32, u64_at(s, p) as int, base, wanted, Some(p), depth);
    } else {
        lemma_folder_pointer_in_children(s, utf32, pos, stride, i + 1, n, base, wanted, depth);
    }
}

pub proof fn lemma_name_end(s: Seq<u8>, pos: int, utf32: bool)
    requires
        name_at(s, pos, utf32) is Ok,
    ensures
        0 <= pos < name_at(s, pos, utf32)->Ok_0.1 <= s.len(),
{
    if utf32 {
        lemma_name32_end(s, pos, Seq::empty());
    } else {
        lemma_units_end(s, pos, Seq::empty());
    }
}

pub proof fn lemma_name32_end(s: Seq<u8>, pos: int, before: Seq<char>)
    requires
        name32_from(s, pos, before) is Ok,
    ensures
        0 <= pos < name32_from(s, pos, before)->Ok_0.1 <= s.len(),
    decreases s.len() - pos,
{
    let v = u32_at(s, pos);
    if v != 0 {
        lemma_name32_end(s, pos + 4, before.push(v as char));
    }
}

pub proof fn lemma_units_end(s: Seq<u8>, pos: int, before: Seq<u16>)
    requires
        units_from(s, pos, before) is Some,
    ensures
        ({
            let (_, end) = units_from(s, pos, before)->0;
            0 <= pos < end <= s.len()
        }),
    decreases s.len() - pos,
{
    let v = le_at(s, pos, 2) as u16;
    if v != 0 {
        lemma_units_end(s, pos + 2, before.push(v));
    }
}

/// A restore undoes a patch: it leaves the archive as it was.
pub proof fn law_restore_undoes_patch(
    s: Seq<u8>,
    utf32: bool,
    bundle_name: Seq<char>,
    bundle: Seq<u8>,
    index: Seq<u8>,
    plan: PlanView,
)
    requires
        s.len() <= u64::MAX,
        patch_plan(s, utf32, s.len() as u64, bundle_name, bundle, index) == Ok::<
            PlanView,
            GgpkError,
        >(plan),
    ensures
        restored_archive(patched_archive(s, plan), plan.backup) == s,
{
    lemma_int_bytes();
    reveal(plan_for);
    let folder = (pdir_in(s, utf32, "Bundles2"@)->Ok_0)->0;
    lemma_folder_pointer(
        s,
        utf32,
        0,
        Seq::empty(),
        "Bundles2"@,
        None,
        crate::ggpk::depth_bound(s.len(), "Bundles2"@.len()),
    );
    assert(points_at(s, folder));
    let p = folder.parent_offset_pos->0;
    assert(plan.backup.bundles2_offset_pos == p);
    assert(plan.backup.original_bundles2_offset == u64_at(s, p));
    let grown = written(s, s.len() as int, plan.append_bytes);
    assert(grown =~= s + plan.append_bytes);
    let t = patched_archive(s, plan);
    assert(t.len() == s.len() + plan.append_bytes.len());
    assert(plan.backup.appended_end == t.len());
    let back = written(t, p, u64_bytes(plan.backup.original_bundles2_offset));
    assert(back.len() == t.len());
    assert(u64_bytes(u64_at(s, p)) == s.subrange(p, p + 8)) by {
        crate::bytes::lemma_le_inverse(s.subrange(p, p + 8));
        crate::bytes::lemma_le_value_bounds(s.subrange(p, p + 8));
    }
    assert(back.subrange(0, s.len() as int) =~= s);
}

/// A name without a zero in it.
pub open spec fn no_nul(name: Seq<char>) -> bool {
    forall|i: int| 0 <= i < name.len() ==> #[trigger] name[i] != '\0'
}

proof fn lemma_utf32_read(s: Seq<u8>, pos: int, name: Seq<char>, n: nat)
    requires
        n <= name.len(),
        no_nul(name),
        holds_at(s, pos, utf32_bytes(name.take(n as int))),
    ensures
        utf32_bytes(name.take(n as int)).len() == 4 * n,
        name32_from(s, pos, Seq::empty()) == name32_from(s, pos + 4 * n, name.take(n as int)),
    decreases n,
{
    let part = name.take(n as int);
    if n > 0 {
        let m = (n - 1) as nat;
        let c = name[m as int];
        assert(part.drop_last() =~= name.take(m as int));
        lemma_holds_split(s, pos, utf32_bytes(name.take(m as int)), u32_bytes(c as u32));
        lemma_utf32_read(s, pos, name, m);
        lemma_holds_u32(s, pos + 4 * m, c as u32);
        vstd::utf8::char_is_scalar(c);
        vstd::utf8::char_u32_cast(c, c as u32);
        assert(name.take(m as int).push(c) =~= part);
    } else {
        assert(part =~= Seq::<char>::empty());
    }
}

proof fn lemma_units_read(s: Seq<u8>, pos: int, u: Seq<u16>, n: nat)
    requires
        n <= u.len(),
        forall|i: int| 0 <= i < u.len() ==> #[trigger] u[i] != 0,
        holds_at(s, pos, unit_bytes(u.take(n as int))),
    ensures
        unit_bytes(u.take(n as int)).len() == 2 * n,
        units_from(s, pos, Seq::empty()) == units_from(s, pos + 2 * n, u.take(n as int)),
    decreases n,
{
    let part = u.take(n as int);
    if n > 0 {
        let m = (n - 1) as nat;
        let v = u[m as int];
        assert(part.drop_last() =~= u.take(m as int));
        lemma_holds_split(s, pos, unit_bytes(u.take(m as int)), u16_bytes(v));
        lemma_units_read(s, pos, u, m);
        lemma_holds_u16(s, pos + 2 * m, v);
        assert(u.take(m as int).push(v) =~= part);
    } else {
        assert(part =~= Seq::<u16>::empty());
    }
}

proof fn lemma_units_not_zero(name: Seq<char>)
    requires
        no_nul(name),
    ensures
        forall|i: int| 0 <= i < utf16_units(name).len() ==> #[trigger] utf16_units(name)[i] != 0,
    decreases name.len(),
{
    if name.len() > 0 {
        let rest = name.subrange(1, name.len() as int);
        assert(no_nul(rest));
        lemma_units_not_zero(rest);
        lemma_char_units_not_zero(name[0]);
        let first = crate::utf16::char_units(name[0]);
        let all = utf16_units(name);
        assert forall|i: int| 0 <= i < all.len() implies #[trigger] all[i] != 0 by {
            if i >= first.len() {
                assert(all[i] == utf16_units(rest)[i - first.len()]);
            }
        }
    }
}

proof fn lemma_char_units_not_zero(c: char)
    requires
        c != '\0',
    ensures
        forall|i: int|
            0 <= i < crate::utf16::char_units(c).len() ==> #[trigger] crate::utf16::char_units(c)[i]
                != 0,
{
    let v = c as u32;
    if v < 0x10000 {
        assert(v as u16 as u32 == v);
    }
}

/// A name is read back as it was written.
pub proof fn law_name_round_trip(s: Seq<u8>, pos: int, name: Seq<char>, utf32: bool)
    requires
        no_nul(name),
        holds_at(s, pos, name_bytes(name, utf32)),
    ensures
        name_at(s, pos, utf32) == Ok::<(Seq<char>, int), GgpkError>(
            (name, pos + name_bytes(name, utf32).len()),
        ),
{
    if utf32 {
        assert(name.take(name.len() as int) =~= name);
        lemma_holds_split(s, pos, utf32_bytes(name), u32_bytes(0));
        lemma_utf32_read(s, pos, name, name.len());
        lemma_holds_u32(s, pos + 4 * name.len(), 0);
    } else {
        let u = utf16_units(name);
        assert(u.take(u.len() as int) =~= u);
        lemma_units_not_zero(name);
        lemma_holds_split(s, pos, unit_bytes(u), u16_bytes(0));
        lemma_units_read(s, pos, u, u.len());
        lemma_holds_u16(s, pos + 2 * u.len(), 0);
        law_utf16_round_trip(name);
    }
}

/// What a search reads of a file record.
proof fn lemma_file_record_parts(
    s: Seq<u8>,
    offset: int,
    name: Seq<char>,
    data: Seq<u8>,
    utf32: bool,
)
    requires
        no_nul(name),
        file_record(name, data, utf32) is Ok,
        holds_at(s, offset, file_record(name, data, utf32)->Ok_0),
    ensures
        ({
            let begin = offset + 44 + name_bytes(name, utf32).len();
            &&& 0 <= offset
            &&& offset + 12 <= s.len()
            &&& begin + data.len() <= s.len()
            &&& u32_at(s, offset) == begin + data.len() - offset
            &&& tag_of(s.subrange(offset + 4, offset + 8)) == Ok::<RecordTag, GgpkError>(
                RecordTag::File,
            )
            &&& name_at(s, offset + 44, utf32) == Ok::<(Seq<char>, int), GgpkError>((name, begin))
            &&& s.subrange(begin, begin + data.len()) == data
        }),
{
    lemma_int_bytes();
    let nb = name_bytes(name, utf32);
    let size = 44 + nb.len() + data.len();
    let e = nb + data;
    let d = zeros(32) + e;
    let c = u32_bytes((name.len() + 1) as u32) + d;
    let b = tag_file() + c;
    lemma_holds_split(s, offset, u32_bytes(size as u32), b);
    lemma_holds_u32(s, offset, size as u32);
    lemma_holds_split(s, offset + 4, tag_file(), c);
    lemma_tags_differ();
    lemma_holds_split(s, offset + 8, u32_bytes((name.len() + 1) as u32), d);
    lemma_holds_split(s, offset + 12, zeros(32), e);
    lemma_holds_split(s, offset + 44, nb, data);
    law_name_round_trip(s, offset + 44, name, utf32);
}

/// A file record that stands in an archive is found under its name, with its
/// data, and under no other name.
pub proof fn law_file_record_is_found(
    s: Seq<u8>,
    offset: int,
    name: Seq<char>,
    data: Seq<u8>,
    utf32: bool,
    base: Seq<char>,
    depth: nat,
)
    requires
        depth > 0,
        no_nul(name),
        file_record(name, data, utf32) is Ok,
        holds_at(s, offset, file_record(name, data, utf32)->Ok_0),
    ensures
        ({
            let begin = offset + 44 + name_bytes(name, utf32).len();
            &&& file_below(s, utf32, offset, base, ggpk_path(base, name), depth) == Ok::<
                Option<(int, int)>,
                GgpkError,
            >(Some((begin, data.len() as int)))
            &&& s.subrange(begin, begin + data.len()) == data
            &&& forall|wanted: Seq<char>|
                wanted != ggpk_path(base, name) ==> #[trigger] file_below(
                    s,
                    utf32,
                    offset,
                    base,
                    wanted,
                    depth,
                ) == Ok::<Option<(int, int)>, GgpkError>(None)
        }),
{
    lemma_file_record_parts(s, offset, name, data, utf32);
}

proof fn lemma_tags_differ()
    ensures
        tag_of(tag_file()) == Ok::<RecordTag, GgpkError>(RecordTag::File),
        tag_of(tag_pdir()) == Ok::<RecordTag, GgpkError>(RecordTag::Pdir),
{
    assert(tag_file()[0] != crate::ggpk::tag_ggpk()[0]);
    assert(tag_file()[0] != tag_pdir()[0]);
    assert(tag_pdir()[0] != crate::ggpk::tag_ggpk()[0]);
}

proof fn lemma_entry_table(s: Seq<u8>, pos: int, entries: Seq<EntryView>, n: nat, i: int)
    requires
        n <= entries.len(),
        0 <= i < n,
        holds_at(s, pos, entry_table(entries, n)),
    ensures
        entry_table(entries, n).len() == 12 * n,
        pos + 12 * i + 12 <= s.len(),
        u32_at(s, pos + 12 * i) == entries[i].name_hash,
        u64_at(s, pos + 12 * i + 4) == entries[i].offset,
    decreases n,
{
    let m = (n - 1) as nat;
    let e = entries[m as int];
    let last = u32_bytes(e.name_hash) + u64_bytes(e.offset);
    lemma_int_bytes();
    lemma_entry_table_len(entries, m);
    lemma_entry_table_len(entries, n);
    lemma_holds_split(s, pos, entry_table(entries, m), last);
    if i < m {
        lemma_entry_table(s, pos, entries, m, i);
    } else {
        lemma_holds_split(s, pos + 12 * m, u32_bytes(e.name_hash), u64_bytes(e.offset));
        lemma_holds_u32(s, pos + 12 * m, e.name_hash);
        lemma_holds_u64(s, pos + 12 * m + 4, e.offset);
    }
}

proof fn lemma_entry_table_len(entries: Seq<EntryView>, n: nat)
    ensures
        entry_table(entries, n).len() == 12 * n,
    decreases n,
{
    lemma_int_bytes();
    if n > 0 {
        lemma_entry_table_len(entries, (n - 1) as nat);
    }
}

/// What a search does with a folder record: where the folder may hold the file,
/// it goes through the table.
pub proof fn lemma_folder_record(
    s: Seq<u8>,
    offset: int,
    name: Seq<char>,
    digest: Seq<u8>,
    entries: Seq<EntryView>,
    utf32: bool,
    base: Seq<char>,
    wanted: Seq<char>,
    depth: nat,
)
    requires
        no_nul(name),
        digest.len() == 32,
        pdir_record(name, digest, entries, utf32) is Ok,
        holds_at(s, offset, pdir_record(name, digest, entries, utf32)->Ok_0),
    ensures
        ({
            let table_at = offset + 48 + name_bytes(name, utf32).len();
            &&& holds_at(s, table_at, entry_table(entries, entries.len()))
            &&& file_below(s, utf32, offset, base, wanted, (depth + 1) as nat) == (
            if may_contain(ggpk_path(base, name), wanted) {
                file_in_children(
                    s,
                    utf32,
                    table_at + 4,
                    12,
                    0,
                    entries.len() as int,
                    ggpk_path(base, name),
                    wanted,
                    depth,
                )
            } else {
                Ok::<Option<(int, int)>, GgpkError>(None)
            })
        }),
{
    lemma_int_bytes();
    let nb = name_bytes(name, utf32);
    let table = entry_table(entries, entries.len());
    let size = 48 + nb.len() + 12 * entries.len();
    let f = nb + table;
    let e = digest + f;
    let d = u32_bytes(entries.len() as u32) + e;
    let c = u32_bytes((name.len() + 1) as u32) + d;
    let b = tag_pdir() + c;
    lemma_holds_split(s, offset, u32_bytes(size as u32), b);
    lemma_holds_u32(s, offset, size as u32);
    lemma_holds_split(s, offset + 4, tag_pdir(), c);
    lemma_tags_differ();
    lemma_holds_split(s, offset + 8, u32_bytes((name.len() + 1) as u32), d);
    lemma_holds_split(s, offset + 12, u32_bytes(entries.len() as u32), e);
    lemma_holds_u32(s, offset + 12, entries.len() as u32);
    lemma_holds_split(s, offset + 16, digest, f);
    lemma_holds_split(s, offset + 48, nb, table);
    law_name_round_trip(s, offset + 48, name, utf32);
}

/// The search goes past the entries that hold nothing to one that holds the file,
/// if those between hold nothing or the same.
pub proof fn lemma_found_in_table(
    s: Seq<u8>,
    utf32: bool,
    pos: int,
    entries: Seq<EntryView>,
    i: int,
    k: int,
    base: Seq<char>,
    wanted: Seq<char>,
    depth: nat,
)
    requires
        0 <= i <= k < entries.len(),
        holds_at(s, pos, entry_table(entries, entries.len())),
        forall|j: int|
            0 <= j < k ==> {
                let r = file_below(
                    s,
                    utf32,
                    (#[trigger] entries[j]).offset as int,
                    base,
                    wanted,
                    depth,
                );
                r == Ok::<Option<(int, int)>, GgpkError>(None) || r == file_below(
                    s,
                    utf32,
                    entries[k].offset as int,
                    base,
                    wanted,
                    depth,
                )
            },
        file_below(s, utf32, entries[k].offset as int, base, wanted, depth) matches Ok(Some(_)),
    ensures
        file_in_children(
            s,
            utf32,
            pos + 4,
            12,
            i,
            entries.len() as int,
            base,
            wanted,
            depth,
        ) == file_below(s, utf32, entries[k].offset as int, base, wanted, depth),
    decreases k - i,
{
    lemma_entry_table(s, pos, entries, entries.len(), i);
    if i < k {
        let r = file_below(s, utf32, entries[i].offset as int, base, wanted, depth);
        if r == Ok::<Option<(int, int)>, GgpkError>(None) {
            lemma_found_in_table(s, utf32, pos, entries, i + 1, k, base, wanted, depth);
        }
    }
}

/// The search goes past all entries if none holds the file.
pub proof fn lemma_not_in_table(
    s: Seq<u8>,
    utf32: bool,
    pos: int,
    entries: Seq<EntryView>,
    i: int,
    base: Seq<char>,
    wanted: Seq<char>,
    depth: nat,
)
    requires
        0 <= i <= entries.len(),
        holds_at(s, pos, entry_table(entries, entries.len())),
        forall|j: int|
            0 <= j < entries.len() ==> file_below(
                s,
                utf32,
                (#[trigger] entries[j]).offset as int,
                base,
                wanted,
                depth,
            ) == Ok::<Option<(int, int)>, GgpkError>(None),
    ensures
        file_in_children(
            s,
            utf32,
            pos + 4,
            12,
            i,
            entries.len() as int,
            base,
            wanted,
            depth,
        ) == Ok::<Option<(int, int)>, GgpkError>(None),
    decreases entries.len() - i,
{
    if i < entries.len() {
        lemma_entry_table(s, pos, entries, entries.len(), i);
        lemma_not_in_table(s, utf32, pos, entries, i + 1, base, wanted, depth);
        assert(file_below(s, utf32, entries[i].offset as int, base, wanted, depth) == Ok::<
            Option<(int, int)>,
            GgpkError,
        >(None));
    }
}

/// A folder record that stands in an archive leads to a file of its table, if
/// nothing before it in the table does.
pub proof fn law_folder_record_leads_to_its_files(
    s: Seq<u8>,
    offset: int,
    name: Seq<char>,
    digest: Seq<u8>,
    entries: Seq<EntryView>,
    utf32: bool,
    base: Seq<char>,
    wanted: Seq<char>,
    k: int,
    depth: nat,
)
    requires
        no_nul(name),
        digest.len() == 32,
        pdir_record(name, digest, entries, utf32) is Ok,
        holds_at(s, offset, pdir_record(name, digest, entries, utf32)->Ok_0),
        may_contain(ggpk_path(base, name), wanted),
        0 <= k < entries.len(),
        forall|j: int|
            0 <= j < k ==> file_below(
                s,
                utf32,
                (#[trigger] entries[j]).offset as int,
                ggpk_path(base, name),
                wanted,
                depth,
            ) == Ok::<Option<(int, int)>, GgpkError>(None),
        file_below(
            s,
            utf32,
            entries[k].offset as int,
            ggpk_path(base, name),
            wanted,
            depth,
        ) matches Ok(Some(_)),
    ensures
        file_below(s, utf32, offset, base, wanted, (depth + 1) as nat) == file_below(
            s,
            utf32,
            entries[k].offset as int,
            ggpk_path(base, name),
            wanted,
            depth,
        ),
{
    lemma_folder_record(s, offset, name, digest, entries, utf32, base, wanted, depth);
    let table_at = offset + 48 + name_bytes(name, utf32).len();
    let path = ggpk_path(base, name);
    lemma_found_in_table(s, utf32, table_at, entries, 0, k, path, wanted, depth);
}

/// After a patch the pointer leads to the new folder record, and the new index
/// and the new bundle are found at the places that the record gives them.
pub proof fn law_patched_archive_holds_the_new_files(
    s: Seq<u8>,
    utf32: bool,
    bundle_name: Seq<char>,
    bundle: Seq<u8>,
    index: Seq<u8>,
    plan: PlanView,
    base: Seq<char>,
    depth: nat,
)
    requires
        s.len() <= u64::MAX,
        patch_plan(s, utf32, s.len() as u64, bundle_name, bundle, index) == Ok::<
            PlanView,
            GgpkError,
        >(plan),
        no_nul(bundle_name),
        depth > 0,
    ensures
        ({
            let t = patched_archive(s, plan);
            let index_name = "_.index.bin"@;
            let file_name = custom_file_name(bundle_name);
            let index_record = file_record(index_name, index, utf32)->Ok_0;
            let bundle_record = file_record(file_name, bundle, utf32)->Ok_0;
            let index_at = s.len() as int;
            let bundle_at = s.len() + index_record.len();
            let index_begin = index_at + 44 + name_bytes(index_name, utf32).len();
            let bundle_begin = bundle_at + 44 + name_bytes(file_name, utf32).len();
            &&& u64_at(t, plan.backup.bundles2_offset_pos as int) == plan.new_bundles2_offset
            &&& plan.new_bundles2_offset == bundle_at + bundle_record.len()
            &&& file_below(t, utf32, index_at, base, ggpk_path(base, index_name), depth) == Ok::<
                Option<(int, int)>,
                GgpkError,
            >(Some((index_begin, index.len() as int)))
            &&& t.subrange(index_begin, index_begin + index.len()) == index
            &&& file_below(t, utf32, bundle_at as int, base, ggpk_path(base, file_name), depth)
                == Ok::<Option<(int, int)>, GgpkError>(
                Some((bundle_begin as int, bundle.len() as int)),
            )
            &&& t.subrange(bundle_begin as int, (bundle_begin + bundle.len()) as int) == bundle
        }),
{
    assert(no_nul(custom_file_name(bundle_name))) by {
        reveal_strlit(".bundle.bin");
    }
    lemma_patch_in_place(s, utf32, bundle_name, bundle, index, plan);
    lemma_new_files_found(
        patched_archive(s, plan),
        s.len() as int,
        utf32,
        custom_file_name(bundle_name),
        bundle,
        index,
        base,
        depth,
    );
}

/// Two file records, one behind the other, are found.
proof fn lemma_new_files_found(
    t: Seq<u8>,
    n: int,
    utf32: bool,
    file_name: Seq<char>,
    bundle: Seq<u8>,
    index: Seq<u8>,
    base: Seq<char>,
    depth: nat,
)
    requires
        depth > 0,
        no_nul(file_name),
        file_record("_.index.bin"@, index, utf32) is Ok,
        file_record(file_name, bundle, utf32) is Ok,
        holds_at(t, n, file_record("_.index.bin"@, index, utf32)->Ok_0),
        holds_at(
            t,
            n + file_record("_.index.bin"@, index, utf32)->Ok_0.len(),
            file_record(file_name, bundle, utf32)->Ok_0,
        ),
    ensures
        ({
            let index_name = "_.index.bin"@;
            let bundle_at = n + file_record(index_name, index, utf32)->Ok_0.len();
            let index_begin = n + 44 + name_bytes(index_name, utf32).len();
            let bundle_begin = bundle_at + 44 + name_bytes(file_name, utf32).len();
            &&& file_below(t, utf32, n, base, ggpk_path(base, index_name), depth) == Ok::<
                Option<(int, int)>,
                GgpkError,
            >(Some((index_begin, index.len() as int)))
            &&& t.subrange(index_begin, index_begin + index.len()) == index
            &&& file_below(t, utf32, bundle_at, base, ggpk_path(base, file_name), depth) == Ok::<
                Option<(int, int)>,
                GgpkError,
            >(Some((bundle_begin, bundle.len() as int)))
            &&& t.subrange(bundle_begin, bundle_begin + bundle.len()) == bundle
        }),
{
    let index_name = "_.index.bin"@;
    assert(no_nul(index_name)) by {
        reveal_strlit("_.index.bin");
    }
    let bundle_at = n + file_record(index_name, index, utf32)->Ok_0.len();
    law_file_record_is_found(t, n, index_name, index, utf32, base, depth);
    law_file_record_is_found(t, bundle_at, file_name, bundle, utf32, base, depth);
}

/// The folder `Bundles2` of an archive that has one.
pub open spec fn bundles_folder(s: Seq<u8>, utf32: bool) -> PdirView {
    (pdir_in(s, utf32, "Bundles2"@)->Ok_0)->0
}

/// Whether the new folder record stands where the new pointer leads, the rest of
/// the archive stays as it was, and the records make up what was appended.
pub open spec fn folder_record_in_place(
    s: Seq<u8>,
    utf32: bool,
    bundle_name: Seq<char>,
    bundle_at: u64,
    plan: PlanView,
) -> bool {
    let t = patched_archive(s, plan);
    let p = plan.backup.bundles2_offset_pos as int;
    let folder = bundles_folder(s, utf32);
    let entries = patched_entries(folder.entries, bundle_name, s.len() as u64, bundle_at);
    let z = pdir_record(folder.name, folder.digest, entries, utf32);
    &&& z is Ok
    &&& holds_at(t, plan.new_bundles2_offset as int, z->Ok_0)
    &&& folder.parent_offset_pos == Some(p)
    &&& points_at(s, folder)
    &&& t.len() == s.len() + plan.append_bytes.len()
    &&& plan.append_bytes.len() > 0
    &&& forall|i: int| 0 <= i < s.len() && !(p <= i < p + 8) ==> #[trigger] s[i] == t[i]
}

/// After a patch the pointer and the appended records are in their places.
pub proof fn lemma_patch_in_place(
    s: Seq<u8>,
    utf32: bool,
    bundle_name: Seq<char>,
    bundle: Seq<u8>,
    index: Seq<u8>,
    plan: PlanView,
)
    requires
        s.len() <= u64::MAX,
        patch_plan(s, utf32, s.len() as u64, bundle_name, bundle, index) == Ok::<
            PlanView,
            GgpkError,
        >(plan),
    ensures
        ({
            let t = patched_archive(s, plan);
            let n = s.len() as int;
            let x = file_record("_.index.bin"@, index, utf32);
            let y = file_record(custom_file_name(bundle_name), bundle, utf32);
            &&& x is Ok
            &&& y is Ok
            &&& u64_at(t, plan.backup.bundles2_offset_pos as int) == plan.new_bundles2_offset
            &&& plan.new_bundles2_offset == n + x->Ok_0.len() + y->Ok_0.len()
            &&& holds_at(t, n, x->Ok_0)
            &&& holds_at(t, n + x->Ok_0.len(), y->Ok_0)
            &&& folder_record_in_place(s, utf32, bundle_name, (n + x->Ok_0.len()) as u64, plan)
        }),
{
    let folder = (pdir_in(s, utf32, "Bundles2"@)->Ok_0)->0;
    lemma_folder_pointer(
        s,
        utf32,
        0,
        Seq::empty(),
        "Bundles2"@,
        None,
        crate::ggpk::depth_bound(s.len(), "Bundles2"@.len()),
    );
    assert(points_at(s, folder));
    let p = folder.parent_offset_pos->0;
    assert(plan.backup.bundles2_offset_pos == p) by {
        reveal(plan_for);
    }
    let n = s.len() as int;
    let x = file_record("_.index.bin"@, index, utf32)->Ok_0;
    let y = file_record(custom_file_name(bundle_name), bundle, utf32)->Ok_0;
    reveal(plan_for);
    let entries = patched_entries(
        folder.entries,
        bundle_name,
        s.len() as u64,
        (n + x.len()) as u64,
    );
    let z = pdir_record(folder.name, folder.digest, entries, utf32)->Ok_0;
    assert(plan.append_bytes == x + (y + z));
    let t = patched_archive(s, plan);
    lemma_written_twice(s, plan.append_bytes, p, plan.new_bundles2_offset);
    lemma_holds_split(t, n, x, y + z);
    lemma_holds_split(t, n + x.len(), y, z);
}

/// What was appended stays when a number in front of it is overwritten.
proof fn lemma_written_twice(s: Seq<u8>, b: Seq<u8>, p: int, v: u64)
    requires
        0 <= p,
        p + 8 <= s.len(),
    ensures
        ({
            let t = written(written(s, s.len() as int, b), p, u64_bytes(v));
            &&& holds_at(t, s.len() as int, b)
            &&& u64_at(t, p) == v
            &&& t.len() == s.len() + b.len()
            &&& forall|i: int| 0 <= i < s.len() && !(p <= i < p + 8) ==> #[trigger] s[i] == t[i]
        }),
{
    lemma_int_bytes();
    let grown = written(s, s.len() as int, b);
    assert(grown =~= s + b);
    let t = written(grown, p, u64_bytes(v));
    let n = s.len() as int;
    assert(t.subrange(n, n + b.len()) =~= b);
    assert(t.subrange(p, p + 8) =~= u64_bytes(v));
}

} // verus!
