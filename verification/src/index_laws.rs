//! An index that was written is read back.

use crate::bytes::{holds_at, lemma_holds_split, lemma_int_bytes, u32_at, u32_bytes, u64_at, u64_bytes};
use crate::hashing::HashMode;
use crate::index::{
    bundle_at, bundles_at, by_hash, directories_at, directory_at, file_at, files_at, hashes, parsed,
    BundleView, DirectoryRecord, FileView,
};
use vstd::prelude::*;
use vstd::utf8::encode_utf8;

verus! {

/// A bundle as it is written: its name and its uncompressed size.
pub struct BundleEntry {
    pub name: Seq<char>,
    pub size: u32,
}

/// A file as it is written: its hash, its bundle, and its place there.
pub struct FileEntry {
    pub hash: u64,
    pub bundle: u32,
    pub offset: u32,
    pub size: u32,
}

pub open spec fn bundle_bytes(b: BundleEntry) -> Seq<u8> {
    let name = encode_utf8(b.name);
    u32_bytes(name.len() as u32) + name + u32_bytes(b.size)
}

pub open spec fn bundles_bytes(all: Seq<BundleEntry>) -> Seq<u8>
    decreases all.len(),
{
    if all.len() == 0 {
        Seq::empty()
    } else {
        bundles_bytes(all.drop_last()) + bundle_bytes(all.last())
    }
}

pub open spec fn file_bytes(f: FileEntry) -> Seq<u8> {
    u64_bytes(f.hash) + u32_bytes(f.bundle) + u32_bytes(f.offset) + u32_bytes(f.size)
}

pub open spec fn files_bytes(all: Seq<FileEntry>) -> Seq<u8>
    decreases all.len(),
{
    if all.len() == 0 {
        Seq::empty()
    } else {
        files_bytes(all.drop_last()) + file_bytes(all.last())
    }
}

pub open spec fn directory_bytes(d: DirectoryRecord) -> Seq<u8> {
    u64_bytes(d.path_hash) + u32_bytes(d.offset) + u32_bytes(d.size) + u32_bytes(d.recursive_size)
}

pub open spec fn directories_bytes(all: Seq<DirectoryRecord>) -> Seq<u8>
    decreases all.len(),
{
    if all.len() == 0 {
        Seq::empty()
    } else {
        directories_bytes(all.drop_last()) + directory_bytes(all.last())
    }
}

/// An index as it is written: bundles, files and directories, each behind their number,
/// and the data that spells the paths.
pub open spec fn index_bytes(
    bundles: Seq<BundleEntry>,
    files: Seq<FileEntry>,
    directories: Seq<DirectoryRecord>,
    data: Seq<u8>,
) -> Seq<u8> {
    u32_bytes(bundles.len() as u32) + bundles_bytes(bundles) + u32_bytes(files.len() as u32)
        + files_bytes(files) + u32_bytes(directories.len() as u32) + directories_bytes(directories)
        + data
}

/// Whether a bundle was read as it was written.
pub open spec fn is_bundle(s: Seq<u8>, b: BundleEntry, v: BundleView) -> bool {
    &&& v.name == b.name
    &&& v.uncompressed_size == b.size
    &&& holds_at(s, v.size_pos, u32_bytes(b.size))
}

/// Whether a file was read as it was written.
pub open spec fn is_file(s: Seq<u8>, f: FileEntry, bundles: Seq<BundleEntry>, v: FileView) -> bool {
    &&& v.hash == f.hash
    &&& v.bundle_index == f.bundle
    &&& v.bundle_name == bundles[f.bundle as int].name
    &&& v.offset == f.offset
    &&& v.size == f.size
    &&& holds_at(s, v.record_pos, file_bytes(f))
}

/// Whether `i` is the last of the files with its hash.
pub open spec fn is_last_of_hash(files: Seq<FileEntry>, i: int) -> bool {
    forall|j: int| i < j < files.len() ==> (#[trigger] files[j]).hash != files[i].hash
}

proof fn lemma_u32_at(s: Seq<u8>, pos: int, v: u32)
    requires
        holds_at(s, pos, u32_bytes(v)),
    ensures
        u32_at(s, pos) == v,
        pos + 4 <= s.len(),
{
    lemma_int_bytes();
    assert(u32_bytes(v).len() == 4);
}

proof fn lemma_u64_at(s: Seq<u8>, pos: int, v: u64)
    requires
        holds_at(s, pos, u64_bytes(v)),
    ensures
        u64_at(s, pos) == v,
        pos + 8 <= s.len(),
{
    lemma_int_bytes();
    assert(u64_bytes(v).len() == 8);
}

proof fn lemma_bundle(s: Seq<u8>, pos: int, b: BundleEntry)
    requires
        holds_at(s, pos, bundle_bytes(b)),
        encode_utf8(b.name).len() <= u32::MAX,
    ensures
        ({
            let (v, end) = bundle_at(s, pos)->Ok_0;
            &&& bundle_at(s, pos) is Ok
            &&& is_bundle(s, b, v)
            &&& end == pos + bundle_bytes(b).len()
        }),
{
    let name = encode_utf8(b.name);
    let number = u32_bytes(name.len() as u32);
    lemma_int_bytes();
    assert(number.len() == 4);
    lemma_holds_split(s, pos, number + name, u32_bytes(b.size));
    lemma_holds_split(s, pos, number, name);
    lemma_u32_at(s, pos, name.len() as u32);
    lemma_u32_at(s, pos + 4 + name.len(), b.size);
    vstd::utf8::encode_utf8_decode_utf8(b.name);
    vstd::utf8::encode_utf8_valid_utf8(b.name);
    assert(s.subrange(pos + 4, pos + 4 + name.len()) == name);
}

proof fn lemma_bundles(s: Seq<u8>, all: Seq<BundleEntry>)
    requires
        holds_at(s, 4, bundles_bytes(all)),
        forall|i: int| 0 <= i < all.len() ==> encode_utf8((#[trigger] all[i]).name).len() <= u32::MAX,
    ensures
        ({
            let (views, end) = bundles_at(s, all.len())->Ok_0;
            &&& bundles_at(s, all.len()) is Ok
            &&& views.len() == all.len()
            &&& forall|i: int| 0 <= i < all.len() ==> is_bundle(s, all[i], #[trigger] views[i])
            &&& end == 4 + bundles_bytes(all).len()
        }),
    decreases all.len(),
{
    if all.len() > 0 {
        let before = all.drop_last();
        lemma_holds_split(s, 4, bundles_bytes(before), bundle_bytes(all.last()));
        assert forall|i: int| 0 <= i < before.len() implies encode_utf8(
            (#[trigger] before[i]).name,
        ).len() <= u32::MAX by {
            assert(before[i] == all[i]);
        }
        lemma_bundles(s, before);
        let (views, pos) = bundles_at(s, before.len())->Ok_0;
        assert(encode_utf8(all[all.len() - 1].name).len() <= u32::MAX);
        lemma_bundle(s, pos, all.last());
        let v = bundle_at(s, pos)->Ok_0.0;
        let now = views.push(v);
        assert(bundles_at(s, all.len())->Ok_0.0 == now);
        assert forall|i: int| 0 <= i < all.len() implies is_bundle(
            s,
            all[i],
            #[trigger] now[i],
        ) by {
            if i < before.len() {
                assert(before[i] == all[i]);
                assert(is_bundle(s, before[i], views[i]));
            }
        }
    }
}

proof fn lemma_file(s: Seq<u8>, pos: int, f: FileEntry, bundles: Seq<BundleEntry>, views: Seq<BundleView>)
    requires
        holds_at(s, pos, file_bytes(f)),
        f.bundle < bundles.len(),
        views.len() == bundles.len(),
        forall|i: int| 0 <= i < bundles.len() ==> is_bundle(s, bundles[i], #[trigger] views[i]),
    ensures
        file_bytes(f).len() == 20,
        file_at(s, pos, views) is Ok,
        is_file(s, f, bundles, file_at(s, pos, views)->Ok_0),
{
    lemma_int_bytes();
    let a = u64_bytes(f.hash);
    let b = u32_bytes(f.bundle);
    let c = u32_bytes(f.offset);
    let d = u32_bytes(f.size);
    assert(a.len() == 8 && b.len() == 4 && c.len() == 4 && d.len() == 4);
    lemma_holds_split(s, pos, a + b + c, d);
    lemma_holds_split(s, pos, a + b, c);
    lemma_holds_split(s, pos, a, b);
    lemma_u64_at(s, pos, f.hash);
    lemma_u32_at(s, pos + 8, f.bundle);
    lemma_u32_at(s, pos + 12, f.offset);
    lemma_u32_at(s, pos + 16, f.size);
    assert(is_bundle(s, bundles[f.bundle as int], views[f.bundle as int]));
}

proof fn lemma_files(
    s: Seq<u8>,
    start: int,
    all: Seq<FileEntry>,
    bundles: Seq<BundleEntry>,
    views: Seq<BundleView>,
)
    requires
        holds_at(s, start, files_bytes(all)),
        forall|i: int| 0 <= i < all.len() ==> (#[trigger] all[i]).bundle < bundles.len(),
        views.len() == bundles.len(),
        forall|i: int| 0 <= i < bundles.len() ==> is_bundle(s, bundles[i], #[trigger] views[i]),
    ensures
        ({
            let files = files_at(s, start, views, all.len())->Ok_0;
            &&& files_at(s, start, views, all.len()) is Ok
            &&& files.len() == all.len()
            &&& forall|i: int|
                0 <= i < all.len() ==> is_file(s, all[i], bundles, #[trigger] files[i])
            &&& files_bytes(all).len() == 20 * all.len()
        }),
    decreases all.len(),
{
    if all.len() > 0 {
        let before = all.drop_last();
        lemma_holds_split(s, start, files_bytes(before), file_bytes(all.last()));
        assert forall|i: int| 0 <= i < before.len() implies (#[trigger] before[i]).bundle
            < bundles.len() by {
            assert(before[i] == all[i]);
        }
        lemma_files(s, start, before, bundles, views);
        let old_files = files_at(s, start, views, before.len())->Ok_0;
        let pos = start + 20 * (all.len() - 1);
        assert(all[all.len() - 1].bundle < bundles.len());
        lemma_file(s, pos, all.last(), bundles, views);
        let f = file_at(s, pos, views)->Ok_0;
        let now = old_files.push(f);
        assert(files_at(s, start, views, all.len())->Ok_0 == now);
        assert forall|i: int| 0 <= i < all.len() implies is_file(
            s,
            all[i],
            bundles,
            #[trigger] now[i],
        ) by {
            if i < before.len() {
                assert(before[i] == all[i]);
                assert(is_file(s, before[i], bundles, old_files[i]));
            }
        }
    }
}

proof fn lemma_directory(s: Seq<u8>, pos: int, d: DirectoryRecord)
    requires
        holds_at(s, pos, directory_bytes(d)),
    ensures
        directory_bytes(d).len() == 20,
        directory_at(s, pos) == d,
{
    lemma_int_bytes();
    let a = u64_bytes(d.path_hash);
    let b = u32_bytes(d.offset);
    let c = u32_bytes(d.size);
    let e = u32_bytes(d.recursive_size);
    assert(a.len() == 8 && b.len() == 4 && c.len() == 4 && e.len() == 4);
    lemma_holds_split(s, pos, a + b + c, e);
    lemma_holds_split(s, pos, a + b, c);
    lemma_holds_split(s, pos, a, b);
    lemma_u64_at(s, pos, d.path_hash);
    lemma_u32_at(s, pos + 8, d.offset);
    lemma_u32_at(s, pos + 12, d.size);
    lemma_u32_at(s, pos + 16, d.recursive_size);
}

proof fn lemma_directories(s: Seq<u8>, start: int, all: Seq<DirectoryRecord>)
    requires
        holds_at(s, start, directories_bytes(all)),
    ensures
        directories_bytes(all).len() == 20 * all.len(),
        forall|i: int| 0 <= i < all.len() ==> directory_at(s, start + 20 * i) == #[trigger] all[i],
    decreases all.len(),
{
    if all.len() > 0 {
        let before = all.drop_last();
        lemma_holds_split(s, start, directories_bytes(before), directory_bytes(all.last()));
        lemma_directories(s, start, before);
        lemma_directory(s, start + 20 * (all.len() - 1), all.last());
        assert forall|i: int| 0 <= i < all.len() implies directory_at(s, start + 20 * i)
            == #[trigger] all[i] by {
            if i < before.len() {
                assert(before[i] == all[i]);
            }
        }
    }
}

proof fn lemma_last_of_hash(files: Seq<FileView>, i: int)
    requires
        0 <= i < files.len(),
        forall|j: int| i < j < files.len() ==> (#[trigger] files[j]).hash != files[i].hash,
    ensures
        by_hash(files).contains_key(files[i].hash),
        by_hash(files)[files[i].hash] == files[i],
    decreases files.len(),
{
    if i < files.len() - 1 {
        let before = files.drop_last();
        assert(files[files.len() - 1].hash != files[i].hash);
        assert forall|j: int| i < j < before.len() implies (#[trigger] before[j]).hash
            != before[i].hash by {
            assert(before[j] == files[j]);
        }
        lemma_last_of_hash(before, i);
    }
}

proof fn lemma_only_hashes(files: Seq<FileView>, hash: u64)
    requires
        by_hash(files).contains_key(hash),
    ensures
        exists|i: int| 0 <= i < files.len() && (#[trigger] files[i]).hash == hash,
    decreases files.len(),
{
    if files.len() > 0 {
        if files.last().hash == hash {
            assert(files[files.len() - 1].hash == hash);
        } else {
            let before = files.drop_last();
            lemma_only_hashes(before, hash);
            let i = choose|i: int| 0 <= i < before.len() && (#[trigger] before[i]).hash == hash;
            assert(files[i].hash == hash);
        }
    }
}

/// Where the parts of an index stand.
proof fn lemma_layout(
    bundles: Seq<BundleEntry>,
    files: Seq<FileEntry>,
    directories: Seq<DirectoryRecord>,
    data: Seq<u8>,
)
    ensures
        ({
            let s = index_bytes(bundles, files, directories, data);
            let b = bundles_bytes(bundles);
            let d = files_bytes(files);
            let f = directories_bytes(directories);
            &&& holds_at(s, 0, u32_bytes(bundles.len() as u32))
            &&& holds_at(s, 4, b)
            &&& holds_at(s, (4 + b.len()) as int, u32_bytes(files.len() as u32))
            &&& holds_at(s, (8 + b.len()) as int, d)
            &&& holds_at(s, (8 + b.len() + d.len()) as int, u32_bytes(directories.len() as u32))
            &&& holds_at(s, (12 + b.len() + d.len()) as int, f)
            &&& s.len() == 12 + b.len() + d.len() + f.len() + data.len()
            &&& s.subrange((12 + b.len() + d.len() + f.len()) as int, s.len() as int) == data
        }),
{
    let s = index_bytes(bundles, files, directories, data);
    let a = u32_bytes(bundles.len() as u32);
    let b = bundles_bytes(bundles);
    let c = u32_bytes(files.len() as u32);
    let d = files_bytes(files);
    let e = u32_bytes(directories.len() as u32);
    let f = directories_bytes(directories);
    lemma_int_bytes();
    assert(a.len() == 4 && c.len() == 4 && e.len() == 4);
    assert(s.subrange(0, s.len() as int) =~= s);
    assert(holds_at(s, 0, a + b + c + d + e + f + data));
    lemma_holds_split(s, 0, a + b + c + d + e + f, data);
    lemma_holds_split(s, 0, a + b + c + d + e, f);
    lemma_holds_split(s, 0, a + b + c + d, e);
    lemma_holds_split(s, 0, a + b + c, d);
    lemma_holds_split(s, 0, a + b, c);
    lemma_holds_split(s, 0, a, b);
}

proof fn lemma_by_hash_is(
    s: Seq<u8>,
    files: Seq<FileEntry>,
    bundles: Seq<BundleEntry>,
    read: Seq<FileView>,
)
    requires
        read.len() == files.len(),
        forall|i: int| 0 <= i < files.len() ==> is_file(s, files[i], bundles, #[trigger] read[i]),
    ensures
        forall|i: int|
            0 <= i < files.len() && is_last_of_hash(files, i) ==> by_hash(read).contains_key(
                (#[trigger] files[i]).hash,
            ) && is_file(s, files[i], bundles, by_hash(read)[files[i].hash]),
        forall|h: u64| #[trigger]
            by_hash(read).contains_key(h) ==> exists|i: int|
                0 <= i < files.len() && (#[trigger] files[i]).hash == h,
{
    assert forall|i: int| 0 <= i < files.len() && is_last_of_hash(files, i) implies by_hash(
        read,
    ).contains_key((#[trigger] files[i]).hash) && is_file(
        s,
        files[i],
        bundles,
        by_hash(read)[files[i].hash],
    ) by {
        assert(is_file(s, files[i], bundles, read[i]));
        assert forall|j: int| i < j < read.len() implies (#[trigger] read[j]).hash
            != read[i].hash by {
            assert(is_file(s, files[j], bundles, read[j]));
            assert(files[j].hash != files[i].hash);
        }
        lemma_last_of_hash(read, i);
    }
    assert forall|h: u64| #[trigger] by_hash(read).contains_key(h) implies exists|i: int|
        0 <= i < files.len() && (#[trigger] files[i]).hash == h by {
        lemma_only_hashes(read, h);
        let i = choose|i: int| 0 <= i < read.len() && (#[trigger] read[i]).hash == h;
        assert(is_file(s, files[i], bundles, read[i]));
        assert(files[i].hash == h);
    }
}

/// What an index was written with is what is read of it: its bundles, its files by
/// their hashes, its directories and the data that spells its paths. Of several files
/// with the same hash the last one counts. The hash of the root directory tells how
/// paths are hashed.
pub proof fn law_written_index_is_read(
    bundles: Seq<BundleEntry>,
    files: Seq<FileEntry>,
    directories: Seq<DirectoryRecord>,
    data: Seq<u8>,
)
    requires
        bundles.len() <= u32::MAX,
        forall|i: int|
            0 <= i < bundles.len() ==> encode_utf8((#[trigger] bundles[i]).name).len() <= u32::MAX,
        files.len() <= u32::MAX,
        forall|i: int| 0 <= i < files.len() ==> (#[trigger] files[i]).bundle < bundles.len(),
        0 < directories.len() <= u32::MAX,
        directories[0].path_hash == 0xF42A94E69CFF42FE || directories[0].path_hash
            == 0x07E47507B4A92E53,
    ensures
        ({
            let s = index_bytes(bundles, files, directories, data);
            let v = parsed(s)->Ok_0;
            &&& parsed(s) is Ok
            &&& v.raw == s
            &&& v.bundles.len() == bundles.len()
            &&& forall|i: int|
                0 <= i < bundles.len() ==> is_bundle(s, bundles[i], #[trigger] v.bundles[i])
            &&& v.file_order.len() == files.len()
            &&& forall|i: int|
                0 <= i < files.len() ==> #[trigger] v.file_order[i] == files[i].hash
            &&& forall|i: int|
                0 <= i < files.len() && is_last_of_hash(files, i) ==> v.files.contains_key(
                    (#[trigger] files[i]).hash,
                ) && is_file(s, files[i], bundles, v.files[files[i].hash])
            &&& forall|h: u64| #[trigger]
                v.files.contains_key(h) ==> exists|i: int|
                    0 <= i < files.len() && (#[trigger] files[i]).hash == h
            &&& v.directories == directories
            &&& v.directory_bytes == data
            &&& v.paths is None
            &&& v.hash_mode == if directories[0].path_hash == 0xF42A94E69CFF42FE {
                HashMode::Murmur64A
            } else {
                HashMode::Fnv1A
            }
        }),
{
    let s = index_bytes(bundles, files, directories, data);
    lemma_layout(bundles, files, directories, data);
    lemma_u32_at(s, 0, bundles.len() as u32);
    lemma_bundles(s, bundles);
    let (views, pos) = bundles_at(s, bundles.len())->Ok_0;
    lemma_u32_at(s, pos, files.len() as u32);
    lemma_files(s, pos + 4, files, bundles, views);
    let read = files_at(s, pos + 4, views, files.len())->Ok_0;
    let dir_pos = pos + 4 + 20 * files.len();
    lemma_u32_at(s, dir_pos, directories.len() as u32);
    lemma_directories(s, dir_pos + 4, directories);
    assert(directories_at(s, dir_pos + 4, directories.len()) =~= directories) by {
        assert forall|i: int| 0 <= i < directories.len() implies directories_at(
            s,
            dir_pos + 4,
            directories.len(),
        )[i] == directories[i] by {
            assert(directory_at(s, dir_pos + 4 + 20 * i) == directories[i]);
        }
    }
    let v = parsed(s)->Ok_0;
    assert(parsed(s) is Ok);
    assert(v.files == by_hash(read));
    assert(v.file_order == hashes(read));
    assert forall|i: int| 0 <= i < files.len() implies #[trigger] v.file_order[i]
        == files[i].hash by {
        assert(is_file(s, files[i], bundles, read[i]));
    }
    lemma_by_hash_is(s, files, bundles, read);
}

} // verus!
