//! The cached index: what was read of an index, stored for the next start.

use crate::bytes::{
    block_at, block_bytes, holds_at, le_at, lemma_block_read, lemma_holds_split, lemma_holds_u128,
    lemma_holds_u32, lemma_holds_u64, push_all, push_block, push_u128, push_u32, push_u64,
    read_block, read_u128_at, read_u32_at, read_u64_at, same_bytes, u128_bytes, u32_at, u32_bytes,
    u64_at, u64_bytes,
};
use crate::hashing::HashMode;
use crate::index::{
    bundle_views, by_hash, directories_at, directory_at, file_views, hashes, paths_view,
    BundleFile, BundleIndex, BundleInfo, BundleView, DirectoryRecord, FileView, IndexView,
};
use crate::text::{decode_bytes, texts};
use std::collections::HashMap;
use vstd::prelude::*;
use vstd::utf8::{decode_utf8, encode_utf8, valid_utf8};

verus! {

broadcast use vstd::std_specs::hash::group_hash_axioms;

/// What a cached index belongs to: the index or archive that it was read from,
/// with the size and the time of its last change.
#[derive(Debug)]
pub struct CacheKey {
    pub source: String,
    pub size: u64,
    pub mtime: u128,
}

/// What a `CacheKey` says.
pub struct KeyView {
    pub source: Seq<char>,
    pub size: u64,
    pub mtime: u128,
}

impl View for CacheKey {
    type V = KeyView;

    open spec fn view(&self) -> KeyView {
        KeyView { source: self.source@, size: self.size, mtime: self.mtime }
    }
}

/// "2SI4".
pub open spec fn cache_magic() -> Seq<u8> {
    seq![50u8, 83u8, 73u8, 52u8]
}

fn magic_bytes() -> (r: Vec<u8>)
    ensures
        r@ == cache_magic(),
{
    let mut r: Vec<u8> = Vec::new();
    r.push(50);
    r.push(83);
    r.push(73);
    r.push(52);
    assert(r@ =~= cache_magic());
    r
}

/// Where the cached index starts, if the header belongs to `key`.
pub open spec fn cache_start(s: Seq<u8>, key: KeyView) -> Option<int> {
    if !holds_at(s, 0, cache_magic()) {
        None
    } else {
        match block_at(s, 4) {
            None => None,
            Some((source, end)) => if !valid_utf8(source) || end + 24 > s.len() {
                None
            } else if decode_utf8(source) == key.source && u64_at(s, end) == key.size && le_at(
                s,
                end + 8,
                16,
            ) == key.mtime {
                Some(end + 24)
            } else {
                None
            },
        }
    }
}

/// The first `n` cached bundles from `pos` on, and where they end.
pub open spec fn cached_bundles(s: Seq<u8>, pos: int, n: nat) -> Option<(Seq<BundleView>, int)>
    decreases n,
{
    if n == 0 {
        Some((Seq::empty(), pos))
    } else {
        match cached_bundles(s, pos, (n - 1) as nat) {
            None => None,
            Some((before, p)) => if p + 4 > s.len() {
                None
            } else {
                let name_end = p + 4 + u32_at(s, p);
                if name_end + 4 > s.len() || !valid_utf8(s.subrange(p + 4, name_end)) {
                    None
                } else {
                    Some(
                        (
                            before.push(
                                BundleView {
                                    name: decode_utf8(s.subrange(p + 4, name_end)),
                                    uncompressed_size: u32_at(s, name_end),
                                    size_pos: name_end,
                                },
                            ),
                            name_end + 4,
                        ),
                    )
                }
            },
        }
    }
}

/// The cached file at `pos`.
pub open spec fn cached_file(s: Seq<u8>, pos: int, bundles: Seq<BundleView>) -> FileView {
    let bundle_index = u32_at(s, pos + 16);
    FileView {
        hash: u64_at(s, pos),
        bundle_index,
        bundle_name: bundles[bundle_index as int].name,
        offset: u32_at(s, pos + 20),
        size: u32_at(s, pos + 24),
        record_pos: u64_at(s, pos + 8) as usize as int,
    }
}

/// The first `n` cached files from `pos` on.
pub open spec fn cached_files(s: Seq<u8>, pos: int, bundles: Seq<BundleView>, n: nat) -> Option<
    Seq<FileView>,
>
    decreases n,
{
    if n == 0 {
        Some(Seq::empty())
    } else {
        match cached_files(s, pos, bundles, (n - 1) as nat) {
            None => None,
            Some(before) => {
                let p = pos + 28 * (n - 1);
                if u32_at(s, p + 16) >= bundles.len() {
                    None
                } else {
                    Some(before.push(cached_file(s, p, bundles)))
                }
            },
        }
    }
}

/// The first `n` cached texts from `pos` on, and where they end.
pub open spec fn cached_texts(s: Seq<u8>, pos: int, n: nat) -> Option<(Seq<Seq<char>>, int)>
    decreases n,
{
    if n == 0 {
        Some((Seq::empty(), pos))
    } else {
        match cached_texts(s, pos, (n - 1) as nat) {
            None => None,
            Some((before, p)) => match block_at(s, p) {
                None => None,
                Some((b, end)) => if !valid_utf8(b) {
                    None
                } else {
                    Some((before.push(decode_utf8(b)), end))
                },
            },
        }
    }
}

/// The number of things at `pos`, each of at least `unit` bytes, if there is
/// room for them behind it.
pub open spec fn count_at(s: Seq<u8>, pos: int, unit: int) -> Option<nat> {
    if pos + 8 > s.len() || u64_at(s, pos) * unit > s.len() - pos - 8 {
        None
    } else {
        Some(u64_at(s, pos) as nat)
    }
}

/// The cached paths from `pos` on; `None` on the inside if there are none.
pub open spec fn cached_paths(s: Seq<u8>, pos: int) -> Option<Option<Seq<Seq<char>>>> {
    if pos + 1 > s.len() {
        None
    } else if s[pos] == 0 {
        Some(None)
    } else {
        match count_at(s, pos + 1, 8) {
            None => None,
            Some(n) => match cached_texts(s, pos + 9, n) {
                None => None,
                Some((paths, _)) => Some(Some(paths)),
            },
        }
    }
}

/// What follows the files in the cache: the hash mode, the place of the number
/// of files, the directory data, the directories and the paths.
pub open spec fn cached_tail(
    s: Seq<u8>,
    pos: int,
    raw: Seq<u8>,
    bundles: Seq<BundleView>,
    files: Seq<FileView>,
) -> Option<IndexView> {
    if pos + 9 > s.len() || s[pos] > 1 {
        None
    } else {
        match block_at(s, pos + 9) {
            None => None,
            Some((directory_bytes, p)) => match count_at(s, p, 20) {
                None => None,
                Some(n) => match cached_paths(s, p + 8 + 20 * n) {
                    None => None,
                    Some(paths) => Some(
                        IndexView {
                            raw,
                            bundles,
                            hash_mode: if s[pos] == 0 {
                                HashMode::Murmur64A
                            } else {
                                HashMode::Fnv1A
                            },
                            files: by_hash(files),
                            file_order: hashes(files),
                            file_count_pos: u64_at(s, pos + 1) as usize as int,
                            directory_bytes,
                            directories: directories_at(s, p + 8, n),
                            paths,
                        },
                    ),
                },
            },
        }
    }
}

/// The index that the cache `s` holds for `key`.
pub open spec fn cached_index(s: Seq<u8>, key: KeyView) -> Option<IndexView> {
    match cache_start(s, key) {
        None => None,
        Some(start) => match block_at(s, start) {
            None => None,
            Some((raw, p)) => match count_at(s, p, 8) {
                None => None,
                Some(bundle_count) => match cached_bundles(s, p + 8, bundle_count) {
                    None => None,
                    Some((bundles, q)) => match count_at(s, q, 28) {
                        None => None,
                        Some(file_count) => match cached_files(s, q + 8, bundles, file_count) {
                            None => None,
                            Some(files) => cached_tail(
                                s,
                                q + 8 + 28 * file_count,
                                raw,
                                bundles,
                                files,
                            ),
                        },
                    },
                },
            },
        },
    }
}

/// A number of things that the bytes behind it have room for. `unit` is the
/// least size of one of them, so that a number out of a damaged file makes
/// nothing large.
pub fn checked_count(s: &[u8], pos: usize, unit: u64) -> (r: Option<usize>)
    requires
        pos <= s@.len(),
        unit > 0,
    ensures
        match r {
            Some(n) => count_at(s@, pos as int, unit as int) == Some(n as nat),
            None => count_at(s@, pos as int, unit as int) is None,
        },
{
    let total: usize = s.len();
    let count: u64 = match read_u64_at(s, pos) {
        Some(v) => v,
        None => return None,
    };
    let left: u64 = (total - pos - 8) as u64;
    match count.checked_mul(unit) {
        Some(bytes) => {
            if bytes <= left {
                assert(count <= bytes) by (nonlinear_arith)
                    requires
                        bytes == count * unit,
                        unit > 0,
                ;
                Some(count as usize)
            } else {
                None
            }
        },
        None => None,
    }
}

fn read_start(s: &[u8], key: &CacheKey) -> (r: Option<usize>)
    ensures
        match r {
            Some(p) => cache_start(s@, key@) == Some(p as int) && p <= s@.len(),
            None => cache_start(s@, key@) is None,
        },
{
    let total: usize = s.len();
    if total < 4 {
        return None;
    }
    let magic = magic_bytes();
    if !same_bytes(vstd::slice::slice_subrange(s, 0, 4), magic.as_slice()) {
        return None;
    }
    let (source, end) = match read_block(s, 4) {
        Some(v) => v,
        None => return None,
    };
    let text = match decode_bytes(source) {
        Some(v) => v,
        None => return None,
    };
    if total - end < 24 {
        return None;
    }
    match (read_u64_at(s, end), read_u128_at(s, end + 8)) {
        (Some(size), Some(mtime)) => {
            if text == key.source && size == key.size && mtime == key.mtime {
                Some(end + 24)
            } else {
                None
            }
        },
        _ => None,
    }
}

proof fn lemma_cached_bundles_none(s: Seq<u8>, pos: int, i: nat, n: nat)
    requires
        i <= n,
        cached_bundles(s, pos, i) is None,
    ensures
        cached_bundles(s, pos, n) is None,
    decreases n,
{
    if i < n {
        lemma_cached_bundles_none(s, pos, i, (n - 1) as nat);
    }
}

proof fn lemma_cached_files_none(
    s: Seq<u8>,
    pos: int,
    bundles: Seq<BundleView>,
    i: nat,
    n: nat,
)
    requires
        i <= n,
        cached_files(s, pos, bundles, i) is None,
    ensures
        cached_files(s, pos, bundles, n) is None,
    decreases n,
{
    if i < n {
        lemma_cached_files_none(s, pos, bundles, i, (n - 1) as nat);
    }
}

proof fn lemma_cached_texts_none(s: Seq<u8>, pos: int, i: nat, n: nat)
    requires
        i <= n,
        cached_texts(s, pos, i) is None,
    ensures
        cached_texts(s, pos, n) is None,
    decreases n,
{
    if i < n {
        lemma_cached_texts_none(s, pos, i, (n - 1) as nat);
    }
}

fn read_cached_bundles(s: &[u8], pos: usize, n: usize) -> (r: Option<(Vec<BundleInfo>, usize)>)
    requires
        pos <= s@.len(),
    ensures
        match r {
            Some((v, end)) => cached_bundles(s@, pos as int, n as nat) == Some(
                (bundle_views(v@), end as int),
            ) && end <= s@.len(),
            None => cached_bundles(s@, pos as int, n as nat) is None,
        },
{
    let total: usize = s.len();
    let mut out: Vec<BundleInfo> = Vec::new();
    let mut p: usize = pos;
    let mut i: usize = 0;
    assert(bundle_views(out@) =~= Seq::<BundleView>::empty());
    while i < n
        invariant
            i <= n,
            total == s@.len(),
            p <= total,
            cached_bundles(s@, pos as int, i as nat) == Some((bundle_views(out@), p as int)),
        decreases n - i,
    {
        proof {
            if cached_bundles(s@, pos as int, (i + 1) as nat) is None {
                lemma_cached_bundles_none(s@, pos as int, (i + 1) as nat, n as nat);
            }
        }
        let len: usize = match read_u32_at(s, p) {
            Some(v) => v as usize,
            None => return None,
        };
        if len > total - p - 4 {
            return None;
        }
        let name_end: usize = p + 4 + len;
        let uncompressed_size: u32 = match read_u32_at(s, name_end) {
            Some(v) => v,
            None => return None,
        };
        let name = match decode_bytes(crate::bytes::copy_range(s, p + 4, name_end)) {
            Some(v) => v,
            None => return None,
        };
        let ghost before = out@;
        let info = BundleInfo { name, uncompressed_size, size_pos: name_end };
        let ghost view = info@;
        out.push(info);
        assert(bundle_views(out@) =~= bundle_views(before).push(view));
        p = name_end + 4;
        i = i + 1;
    }
    Some((out, p))
}

fn read_cached_files(s: &[u8], pos: usize, bundles: &Vec<BundleInfo>, n: usize) -> (r: Option<
    (HashMap<u64, BundleFile>, Vec<u64>),
>)
    requires
        pos + 28 * n <= s@.len(),
    ensures
        match r {
            Some((files, order)) => {
                let all = cached_files(s@, pos as int, bundle_views(bundles@), n as nat);
                all is Some && file_views(files@) == by_hash(all->0) && order@ == hashes(all->0)
            },
            None => cached_files(s@, pos as int, bundle_views(bundles@), n as nat) is None,
        },
{
    let total: usize = s.len();
    let ghost views = bundle_views(bundles@);
    let mut files: HashMap<u64, BundleFile> = HashMap::new();
    let mut order: Vec<u64> = Vec::new();
    let mut p: usize = pos;
    let mut i: usize = 0;
    let ghost mut seen: Seq<FileView> = Seq::empty();
    assert(file_views(files@) =~= by_hash(seen));
    assert(order@ =~= hashes(seen));
    while i < n
        invariant
            i <= n,
            total == s@.len(),
            pos + 28 * n <= total,
            p == pos + 28 * i,
            views == bundle_views(bundles@),
            cached_files(s@, pos as int, views, i as nat) == Some(seen),
            file_views(files@) == by_hash(seen),
            order@ == hashes(seen),
        decreases n - i,
    {
        proof {
            if cached_files(s@, pos as int, views, (i + 1) as nat) is None {
                lemma_cached_files_none(s@, pos as int, views, (i + 1) as nat, n as nat);
            }
        }
        match (
            read_u64_at(s, p),
            read_u64_at(s, p + 8),
            read_u32_at(s, p + 16),
            read_u32_at(s, p + 20),
            read_u32_at(s, p + 24),
        ) {
            (Some(hash), Some(record_pos), Some(bundle_index), Some(offset), Some(size)) => {
                if bundle_index as usize >= bundles.len() {
                    return None;
                }
                assert(views[bundle_index as int] == bundles@[bundle_index as int]@);
                let bundle_name = bundles[bundle_index as usize].name.clone();
                let f = BundleFile {
                    hash,
                    bundle_index,
                    bundle_name,
                    offset,
                    size,
                    record_pos: #[verifier::truncate] (record_pos as usize),
                };
                let ghost view = f@;
                let ghost before = seen;
                let ghost map_before = files@;
                proof {
                    seen = before.push(view);
                    assert(seen.drop_last() =~= before);
                }
                order.push(hash);
                files.insert(hash, f);
                assert(order@ =~= hashes(seen));
                assert(file_views(files@) =~= by_hash(seen));
            },
            _ => return None,
        }
        p = p + 28;
        i = i + 1;
    }
    Some((files, order))
}

fn read_cached_texts(s: &[u8], pos: usize, n: usize) -> (r: Option<Vec<String>>)
    requires
        pos <= s@.len(),
    ensures
        match r {
            Some(v) => match cached_texts(s@, pos as int, n as nat) {
                Some((all, _)) => all == texts(v@),
                None => false,
            },
            None => cached_texts(s@, pos as int, n as nat) is None,
        },
{
    let mut out: Vec<String> = Vec::new();
    let mut p: usize = pos;
    let mut i: usize = 0;
    assert(texts(out@) =~= Seq::<Seq<char>>::empty());
    while i < n
        invariant
            i <= n,
            p <= s@.len(),
            cached_texts(s@, pos as int, i as nat) == Some((texts(out@), p as int)),
        decreases n - i,
    {
        proof {
            if cached_texts(s@, pos as int, (i + 1) as nat) is None {
                lemma_cached_texts_none(s@, pos as int, (i + 1) as nat, n as nat);
            }
        }
        let (b, end) = match read_block(s, p) {
            Some(v) => v,
            None => return None,
        };
        let text = match decode_bytes(b) {
            Some(v) => v,
            None => return None,
        };
        let ghost before = out@;
        let ghost view = text@;
        out.push(text);
        assert(texts(out@) =~= texts(before).push(view));
        p = end;
        i = i + 1;
    }
    Some(out)
}

fn read_cached_directories(s: &[u8], pos: usize, n: usize) -> (r: Vec<DirectoryRecord>)
    requires
        pos + 20 * n <= s@.len(),
    ensures
        r@ == directories_at(s@, pos as int, n as nat),
{
    let total: usize = s.len();
    let mut out: Vec<DirectoryRecord> = Vec::new();
    let mut p: usize = pos;
    let mut i: usize = 0;
    while i < n
        invariant
            i <= n,
            total == s@.len(),
            pos + 20 * n <= total,
            p == pos + 20 * i,
            out@ == directories_at(s@, pos as int, i as nat),
        decreases n - i,
    {
        match (
            read_u64_at(s, p),
            read_u32_at(s, p + 8),
            read_u32_at(s, p + 12),
            read_u32_at(s, p + 16),
        ) {
            (Some(path_hash), Some(offset), Some(size), Some(recursive_size)) => {
                out.push(DirectoryRecord { path_hash, offset, size, recursive_size });
            },
            _ => {
                assert(false);
            },
        }
        p = p + 20;
        i = i + 1;
        assert(out@ =~= directories_at(s@, pos as int, i as nat));
    }
    out
}

/// Reads the index out of a cache that belongs to `key`; `None` if the cache
/// belongs to something else or is damaged.
pub fn parse_index_cache(data: &[u8], key: &CacheKey) -> (r: Option<BundleIndex>)
    ensures
        match r {
            Some(index) => cached_index(data@, key@) == Some(index@),
            None => cached_index(data@, key@) is None,
        },
{
    let total: usize = data.len();
    let start: usize = match read_start(data, key) {
        Some(v) => v,
        None => return None,
    };
    let (raw_decompressed, p) = match read_block(data, start) {
        Some(v) => v,
        None => return None,
    };
    let bundle_count: usize = match checked_count(data, p, 8) {
        Some(v) => v,
        None => return None,
    };
    let (bundles, q) = match read_cached_bundles(data, p + 8, bundle_count) {
        Some(v) => v,
        None => return None,
    };
    let file_count: usize = match checked_count(data, q, 28) {
        Some(v) => v,
        None => return None,
    };
    let (files, file_order) = match read_cached_files(data, q + 8, &bundles, file_count) {
        Some(v) => v,
        None => return None,
    };
    let tail: usize = q + 8 + 28 * file_count;
    if total - tail < 9 {
        return None;
    }
    let mode_byte: u8 = data[tail];
    if mode_byte > 1 {
        return None;
    }
    let hash_mode = if mode_byte == 0 {
        HashMode::Murmur64A
    } else {
        HashMode::Fnv1A
    };
    let file_count_pos: usize = match read_u64_at(data, tail + 1) {
        Some(v) => #[verifier::truncate] (v as usize),
        None => return None,
    };
    let (directory_bytes_compressed, d) = match read_block(data, tail + 9) {
        Some(v) => v,
        None => return None,
    };
    let directory_count: usize = match checked_count(data, d, 20) {
        Some(v) => v,
        None => return None,
    };
    let directories = read_cached_directories(data, d + 8, directory_count);
    let e: usize = d + 8 + 20 * directory_count;
    if e >= total {
        return None;
    }
    let paths = if data[e] != 0 {
        let path_count: usize = match checked_count(data, e + 1, 8) {
            Some(v) => v,
            None => return None,
        };
        match read_cached_texts(data, e + 9, path_count) {
            Some(v) => Some(v),
            None => return None,
        }
    } else {
        None
    };
    Some(
        BundleIndex {
            raw_decompressed,
            bundles,
            hash_mode,
            files,
            file_order,
            file_count_pos,
            directory_bytes_compressed,
            directories,
            paths,
        },
    )
}

/// The header of a cache.
pub open spec fn cache_header(key: KeyView) -> Seq<u8> {
    cache_magic() + block_bytes(encode_utf8(key.source)) + (u64_bytes(key.size) + u128_bytes(
        key.mtime,
    ))
}

/// The first `n` bundles in the cache.
pub open spec fn bundle_entries(bundles: Seq<BundleView>, n: nat) -> Seq<u8>
    decreases n,
{
    if n == 0 {
        Seq::empty()
    } else {
        let b = bundles[n - 1];
        bundle_entries(bundles, (n - 1) as nat) + bundle_entry(b)
    }
}

pub open spec fn bundle_entry(b: BundleView) -> Seq<u8> {
    let name = encode_utf8(b.name);
    u32_bytes(name.len() as u32) + (name + u32_bytes(b.uncompressed_size))
}

pub open spec fn file_entry(f: FileView) -> Seq<u8> {
    u64_bytes(f.hash) + (u64_bytes(f.record_pos as u64) + (u32_bytes(f.bundle_index) + (u32_bytes(
        f.offset,
    ) + u32_bytes(f.size))))
}

/// The first `n` files in the cache, in the order of their records.
pub open spec fn file_entries(order: Seq<u64>, files: Map<u64, FileView>, n: nat) -> Seq<u8>
    decreases n,
{
    if n == 0 {
        Seq::empty()
    } else {
        file_entries(order, files, (n - 1) as nat) + file_entry(files[order[n - 1]])
    }
}

pub open spec fn directory_entry(d: DirectoryRecord) -> Seq<u8> {
    u64_bytes(d.path_hash) + (u32_bytes(d.offset) + (u32_bytes(d.size) + u32_bytes(
        d.recursive_size,
    )))
}

/// The first `n` directories in the cache.
pub open spec fn directory_entries(directories: Seq<DirectoryRecord>, n: nat) -> Seq<u8>
    decreases n,
{
    if n == 0 {
        Seq::empty()
    } else {
        directory_entries(directories, (n - 1) as nat) + directory_entry(directories[n - 1])
    }
}

/// The first `n` texts in the cache.
pub open spec fn text_entries(t: Seq<Seq<char>>, n: nat) -> Seq<u8>
    decreases n,
{
    if n == 0 {
        Seq::empty()
    } else {
        text_entries(t, (n - 1) as nat) + block_bytes(encode_utf8(t[n - 1]))
    }
}

pub open spec fn paths_bytes(paths: Option<Seq<Seq<char>>>) -> Seq<u8> {
    match paths {
        None => seq![0u8],
        Some(t) => seq![1u8] + (u64_bytes(t.len() as u64) + text_entries(t, t.len())),
    }
}

pub open spec fn mode_byte(mode: HashMode) -> u8 {
    match mode {
        HashMode::Murmur64A => 0,
        HashMode::Fnv1A => 1,
    }
}

/// What follows the files in the cache.
pub open spec fn tail_bytes(v: IndexView) -> Seq<u8> {
    seq![mode_byte(v.hash_mode)] + (u64_bytes(v.file_count_pos as u64) + (block_bytes(
        v.directory_bytes,
    ) + (u64_bytes(v.directories.len() as u64) + (directory_entries(
        v.directories,
        v.directories.len(),
    ) + paths_bytes(v.paths)))))
}

/// The cache that holds the index `v` for `key`.
pub open spec fn cache_bytes(v: IndexView, key: KeyView) -> Seq<u8> {
    cache_header(key) + (block_bytes(v.raw) + (u64_bytes(v.bundles.len() as u64) + (bundle_entries(
        v.bundles,
        v.bundles.len(),
    ) + (u64_bytes(v.files.dom().len() as u64) + (file_entries(
        v.file_order,
        v.files,
        v.file_order.len(),
    ) + tail_bytes(v))))))
}

fn push_directories(out: &mut Vec<u8>, directories: &Vec<DirectoryRecord>)
    ensures
        final(out)@ == old(out)@ + directory_entries(directories@, directories@.len()),
{
    let ghost base = out@;
    let n: usize = directories.len();
    let mut i: usize = 0;
    assert(out@ =~= base + directory_entries(directories@, 0));
    while i < n
        invariant
            i <= n == directories@.len(),
            out@ == base + directory_entries(directories@, i as nat),
        decreases n - i,
    {
        let d: DirectoryRecord = directories[i];
        push_u64(out, d.path_hash);
        push_u32(out, d.offset);
        push_u32(out, d.size);
        push_u32(out, d.recursive_size);
        i = i + 1;
        assert(out@ =~= base + directory_entries(directories@, i as nat));
    }
}

fn push_paths(out: &mut Vec<u8>, paths: &Option<Vec<String>>)
    ensures
        final(out)@ == old(out)@ + paths_bytes(paths_view(*paths)),
{
    let ghost base = out@;
    match paths {
        None => {
            out.push(0);
            assert(out@ =~= base + paths_bytes(None));
        },
        Some(paths) => {
            out.push(1);
            let m: usize = paths.len();
            push_u64(out, m as u64);
            let ghost all = texts(paths@);
            let ghost list = out@;
            let mut j: usize = 0;
            assert(out@ =~= list + text_entries(all, 0));
            while j < m
                invariant
                    j <= m == paths@.len(),
                    all == texts(paths@),
                    out@ == list + text_entries(all, j as nat),
                decreases m - j,
            {
                assert(all[j as int] == paths@[j as int]@);
                push_block(out, paths[j].as_str().as_bytes());
                j = j + 1;
                assert(out@ =~= list + text_entries(all, j as nat));
            }
            assert(out@ =~= base + paths_bytes(Some(all)));
        },
    }
}

fn push_tail(out: &mut Vec<u8>, index: &BundleIndex)
    ensures
        final(out)@ == old(out)@ + tail_bytes(index@),
{
    let ghost start = out@;
    match index.hash_mode {
        HashMode::Murmur64A => out.push(0),
        HashMode::Fnv1A => out.push(1),
    }
    assert(out@ =~= start + seq![mode_byte(index.hash_mode)]);
    push_u64(out, index.file_count_pos as u64);
    push_block(out, index.directory_bytes_compressed.as_slice());
    push_u64(out, index.directories.len() as u64);
    push_directories(out, &index.directories);
    push_paths(out, &index.paths);
    assert(out@ =~= start + tail_bytes(index@));
}

/// The bytes of the cache that holds `index` for `key`.
pub fn index_cache_bytes(index: &BundleIndex, key: &CacheKey) -> (r: Vec<u8>)
    requires
        forall|i: int|
            0 <= i < index.file_order@.len() ==> index.files@.contains_key(
                #[trigger] index.file_order@[i],
            ),
    ensures
        r@ == cache_bytes(index@, key@),
{
    let mut out = magic_bytes();
    push_block(&mut out, key.source.as_str().as_bytes());
    push_u64(&mut out, key.size);
    push_u128(&mut out, key.mtime);
    assert(out@ =~= cache_header(key@));
    push_block(&mut out, index.raw_decompressed.as_slice());
    let n: usize = index.bundles.len();
    push_u64(&mut out, n as u64);
    let ghost head = out@;
    assert(head =~= cache_header(key@) + (block_bytes(index@.raw) + u64_bytes(n as u64)));
    let mut i: usize = 0;
    assert(out@ =~= head + bundle_entries(index@.bundles, 0));
    while i < n
        invariant
            i <= n == index.bundles@.len(),
            out@ == head + bundle_entries(index@.bundles, i as nat),
        decreases n - i,
    {
        assert(index@.bundles[i as int] == index.bundles@[i as int]@);
        let name = index.bundles[i].name.as_str().as_bytes();
        push_u32(&mut out, #[verifier::truncate] (name.len() as u32));
        push_all(&mut out, name);
        push_u32(&mut out, index.bundles[i].uncompressed_size);
        i = i + 1;
        assert(out@ =~= head + bundle_entries(index@.bundles, i as nat));
    }
    let ghost bundles = bundle_entries(index@.bundles, n as nat);
    proof {
        assert(index@.files.dom() =~= index.files@.dom());
    }
    push_u64(&mut out, index.files.len() as u64);
    let ghost mid = out@;
    let m: usize = index.file_order.len();
    let mut j: usize = 0;
    assert(out@ =~= mid + file_entries(index@.file_order, index@.files, 0));
    while j < m
        invariant
            j <= m == index.file_order@.len(),
            forall|i: int|
                0 <= i < index.file_order@.len() ==> index.files@.contains_key(
                    #[trigger] index.file_order@[i],
                ),
            out@ == mid + file_entries(index@.file_order, index@.files, j as nat),
        decreases m - j,
    {
        let hash: u64 = index.file_order[j];
        assert(index.files@.contains_key(index.file_order@[j as int]));
        match index.files.get(&hash) {
            Some(f) => {
                assert(index@.files[hash] == f@);
                push_u64(&mut out, f.hash);
                push_u64(&mut out, f.record_pos as u64);
                push_u32(&mut out, f.bundle_index);
                push_u32(&mut out, f.offset);
                push_u32(&mut out, f.size);
            },
            None => {
                assert(false);
            },
        }
        j = j + 1;
        assert(out@ =~= mid + file_entries(index@.file_order, index@.files, j as nat));
    }
    let ghost files = file_entries(index@.file_order, index@.files, m as nat);
    push_tail(&mut out, index);
    assert(out@ =~= cache_bytes(index@, key@));
    out
}

/// Whether the index can be cached without loss: every file stands once in the
/// order of the records and under its own hash, refers to a bundle that is
/// there by its name, and every length and position fits its field.
pub open spec fn cacheable(v: IndexView) -> bool {
    &&& v.file_order.no_duplicates()
    &&& v.file_order.to_set() == v.files.dom()
    &&& forall|h: u64| #[trigger]
        v.files.contains_key(h) ==> {
            let f = v.files[h];
            &&& f.hash == h
            &&& f.bundle_index < v.bundles.len()
            &&& f.bundle_name == v.bundles[f.bundle_index as int].name
            &&& 0 <= f.record_pos <= usize::MAX
        }
    &&& 0 <= v.file_count_pos <= usize::MAX
    &&& v.raw.len() <= u64::MAX
    &&& v.directory_bytes.len() <= u64::MAX
    &&& v.bundles.len() <= u64::MAX
    &&& v.file_order.len() <= u64::MAX
    &&& v.directories.len() <= u64::MAX
    &&& forall|i: int|
        0 <= i < v.bundles.len() ==> encode_utf8((#[trigger] v.bundles[i]).name).len() <= u32::MAX
    &&& match v.paths {
        None => true,
        Some(t) => t.len() <= u64::MAX && forall|i: int|
            0 <= i < t.len() ==> encode_utf8(#[trigger] t[i]).len() <= u64::MAX,
    }
}

proof fn lemma_header_read(s: Seq<u8>, key: KeyView)
    requires
        holds_at(s, 0, cache_header(key)),
        encode_utf8(key.source).len() <= u64::MAX,
    ensures
        cache_start(s, key) == Some(cache_header(key).len() as int),
{
    let source = encode_utf8(key.source);
    let rest = u64_bytes(key.size) + u128_bytes(key.mtime);
    lemma_holds_split(s, 0, cache_magic() + block_bytes(source), rest);
    lemma_holds_split(s, 0, cache_magic(), block_bytes(source));
    lemma_block_read(s, 4, source);
    let end = 12 + source.len();
    lemma_holds_split(s, end as int, u64_bytes(key.size), u128_bytes(key.mtime));
    lemma_holds_u64(s, end as int, key.size);
    lemma_holds_u128(s, (end + 8) as int, key.mtime);
    vstd::utf8::encode_utf8_decode_utf8(key.source);
    vstd::utf8::encode_utf8_valid_utf8(key.source);
}

/// Bundles with the places that their sizes have in the cache.
pub open spec fn placed_bundles(bundles: Seq<BundleView>, pos: int, n: nat) -> Seq<BundleView>
    decreases n,
{
    if n == 0 {
        Seq::empty()
    } else {
        let before = placed_bundles(bundles, pos, (n - 1) as nat);
        let b = bundles[n - 1];
        before.push(
            BundleView {
                size_pos: pos + bundle_entries(bundles, (n - 1) as nat).len() + 4 + encode_utf8(
                    b.name,
                ).len(),
                ..b
            },
        )
    }
}

proof fn lemma_placed_same(bundles: Seq<BundleView>, pos: int, n: nat)
    requires
        n <= bundles.len(),
    ensures
        placed_bundles(bundles, pos, n).len() == n,
        forall|i: int|
            0 <= i < n ==> (#[trigger] placed_bundles(bundles, pos, n)[i]).name == bundles[i].name
                && placed_bundles(bundles, pos, n)[i].uncompressed_size
                == bundles[i].uncompressed_size,
    decreases n,
{
    if n > 0 {
        lemma_placed_same(bundles, pos, (n - 1) as nat);
    }
}

proof fn lemma_bundles_read(s: Seq<u8>, pos: int, bundles: Seq<BundleView>, n: nat)
    requires
        n <= bundles.len(),
        holds_at(s, pos, bundle_entries(bundles, n)),
        forall|i: int|
            0 <= i < bundles.len() ==> encode_utf8((#[trigger] bundles[i]).name).len() <= u32::MAX,
    ensures
        bundle_entries(bundles, n).len() >= 8 * n,
        cached_bundles(s, pos, n) == Some(
            (placed_bundles(bundles, pos, n), pos + bundle_entries(bundles, n).len()),
        ),
    decreases n,
{
    if n > 0 {
        let m = (n - 1) as nat;
        let b = bundles[m as int];
        let name = encode_utf8(b.name);
        let before = bundle_entries(bundles, m);
        lemma_holds_split(s, pos, before, bundle_entry(b));
        lemma_bundles_read(s, pos, bundles, m);
        let p = pos + before.len();
        lemma_holds_split(
            s,
            p,
            u32_bytes(name.len() as u32),
            name + u32_bytes(b.uncompressed_size),
        );
        lemma_holds_u32(s, p, name.len() as u32);
        lemma_holds_split(s, p + 4, name, u32_bytes(b.uncompressed_size));
        lemma_holds_u32(s, p + 4 + name.len(), b.uncompressed_size);
        vstd::utf8::encode_utf8_decode_utf8(b.name);
        vstd::utf8::encode_utf8_valid_utf8(b.name);
        assert(bundle_entries(bundles, n).len() == before.len() + 8 + name.len());
    }
}

proof fn lemma_files_read(
    s: Seq<u8>,
    pos: int,
    v: IndexView,
    bundles: Seq<BundleView>,
    n: nat,
)
    requires
        n <= v.file_order.len(),
        cacheable(v),
        holds_at(s, pos, file_entries(v.file_order, v.files, n)),
        bundles.len() == v.bundles.len(),
        forall|i: int| 0 <= i < bundles.len() ==> (#[trigger] bundles[i]).name == v.bundles[i].name,
    ensures
        file_entries(v.file_order, v.files, n).len() == 28 * n,
        cached_files(s, pos, bundles, n) == Some(
            Seq::new(n, |i: int| v.files[v.file_order[i]]),
        ),
    decreases n,
{
    let all = Seq::new(n, |i: int| v.files[v.file_order[i]]);
    if n > 0 {
        let m = (n - 1) as nat;
        let h = v.file_order[m as int];
        assert(v.file_order.to_set().contains(h));
        assert(v.files.contains_key(h));
        let f = v.files[h];
        let before = file_entries(v.file_order, v.files, m);
        lemma_holds_split(s, pos, before, file_entry(f));
        lemma_files_read(s, pos, v, bundles, m);
        let p = pos + 28 * m;
        let e = u32_bytes(f.size);
        let d = u32_bytes(f.offset) + e;
        let c = u32_bytes(f.bundle_index) + d;
        let b = u64_bytes(f.record_pos as u64) + c;
        lemma_holds_split(s, p, u64_bytes(f.hash), b);
        lemma_holds_u64(s, p, f.hash);
        lemma_holds_split(s, p + 8, u64_bytes(f.record_pos as u64), c);
        lemma_holds_u64(s, p + 8, f.record_pos as u64);
        lemma_holds_split(s, p + 16, u32_bytes(f.bundle_index), d);
        lemma_holds_u32(s, p + 16, f.bundle_index);
        lemma_holds_split(s, p + 20, u32_bytes(f.offset), e);
        lemma_holds_u32(s, p + 20, f.offset);
        lemma_holds_u32(s, p + 24, f.size);
        assert(bundles[f.bundle_index as int].name == v.bundles[f.bundle_index as int].name);
        assert(cached_file(s, p, bundles) == f);
        assert(all =~= Seq::new(m, |i: int| v.files[v.file_order[i]]).push(f));
    } else {
        assert(all =~= Seq::<FileView>::empty());
    }
}

/// Files that are listed once each under their own hash make up the map.
proof fn lemma_listed_files(order: Seq<u64>, files: Map<u64, FileView>, n: nat)
    requires
        n <= order.len(),
        forall|i: int|
            0 <= i < order.len() ==> files.contains_key(#[trigger] order[i]) && files[order[i]].hash
                == order[i],
    ensures
        ({
            let listed = Seq::new(n, |i: int| files[order[i]]);
            &&& hashes(listed) == order.take(n as int)
            &&& forall|h: u64| #[trigger]
                by_hash(listed).contains_key(h) <==> order.take(n as int).contains(h)
            &&& forall|h: u64| #[trigger]
                by_hash(listed).contains_key(h) ==> by_hash(listed)[h] == files[h]
        }),
    decreases n,
{
    let listed = Seq::new(n, |i: int| files[order[i]]);
    assert(hashes(listed) =~= order.take(n as int));
    if n > 0 {
        let m = (n - 1) as nat;
        lemma_listed_files(order, files, m);
        let before = Seq::new(m, |i: int| files[order[i]]);
        assert(listed.drop_last() =~= before);
        assert(order.take(n as int) =~= order.take(m as int).push(order[m as int]));
        assert forall|h: u64| #[trigger] by_hash(listed).contains_key(h) <==> order.take(
            n as int,
        ).contains(h) by {
            let a = order.take(m as int);
            let b = order.take(n as int);
            assert(by_hash(listed) == by_hash(before).insert(order[m as int], files[order[m as int]]));
            assert(by_hash(before).contains_key(h) <==> a.contains(h));
            if a.contains(h) {
                let j = choose|j: int| 0 <= j < a.len() && a[j] == h;
                assert(b[j] == h);
            }
            if h == order[m as int] {
                assert(b[m as int] == h);
            }
            if b.contains(h) && h != order[m as int] {
                let j = choose|j: int| 0 <= j < b.len() && b[j] == h;
                assert(a[j] == h);
            }
        }
        assert forall|h: u64| #[trigger] by_hash(listed).contains_key(h) implies by_hash(listed)[h]
            == files[h] by {
            assert(by_hash(listed) == by_hash(before).insert(
                order[m as int],
                files[order[m as int]],
            ));
            assert(by_hash(before).contains_key(h) ==> by_hash(before)[h] == files[h]);
        }
    }
}

/// The files in the order of their records make up the map.
proof fn lemma_listed_map(v: IndexView)
    requires
        cacheable(v),
    ensures
        v.files.dom().len() == v.file_order.len(),
        ({
            let listed = Seq::new(v.file_order.len(), |i: int| v.files[v.file_order[i]]);
            by_hash(listed) == v.files && hashes(listed) == v.file_order
        }),
{
    let listed = Seq::new(v.file_order.len(), |i: int| v.files[v.file_order[i]]);
    v.file_order.unique_seq_to_set();
    assert forall|i: int| 0 <= i < v.file_order.len() implies v.files.contains_key(
        #[trigger] v.file_order[i],
    ) && v.files[v.file_order[i]].hash == v.file_order[i] by {
        assert(v.file_order.to_set().contains(v.file_order[i]));
    }
    lemma_listed_files(v.file_order, v.files, v.file_order.len());
    assert(v.file_order.take(v.file_order.len() as int) =~= v.file_order);
    assert forall|h: u64| by_hash(listed).contains_key(h) <==> v.files.contains_key(h) by {
        assert(v.file_order.to_set().contains(h) <==> v.file_order.contains(h));
    }
    assert(by_hash(listed) =~= v.files);
}

proof fn lemma_directories_read(
    s: Seq<u8>,
    pos: int,
    directories: Seq<DirectoryRecord>,
    n: nat,
)
    requires
        n <= directories.len(),
        holds_at(s, pos, directory_entries(directories, n)),
    ensures
        directory_entries(directories, n).len() == 20 * n,
        directories_at(s, pos, n) == directories.take(n as int),
    decreases n,
{
    if n > 0 {
        let m = (n - 1) as nat;
        let x = directories[m as int];
        let before = directory_entries(directories, m);
        lemma_holds_split(s, pos, before, directory_entry(x));
        lemma_directories_read(s, pos, directories, m);
        let p = pos + 20 * m;
        let d = u32_bytes(x.recursive_size);
        let c = u32_bytes(x.size) + d;
        let b = u32_bytes(x.offset) + c;
        lemma_holds_split(s, p, u64_bytes(x.path_hash), b);
        lemma_holds_u64(s, p, x.path_hash);
        lemma_holds_split(s, p + 8, u32_bytes(x.offset), c);
        lemma_holds_u32(s, p + 8, x.offset);
        lemma_holds_split(s, p + 12, u32_bytes(x.size), d);
        lemma_holds_u32(s, p + 12, x.size);
        lemma_holds_u32(s, p + 16, x.recursive_size);
        assert(directory_at(s, p) == x);
        assert(directories_at(s, pos, n) =~= directories_at(s, pos, m).push(x));
        assert(directories.take(n as int) =~= directories.take(m as int).push(x));
    } else {
        assert(directories_at(s, pos, 0) =~= directories.take(0));
    }
}

proof fn lemma_texts_read(s: Seq<u8>, pos: int, t: Seq<Seq<char>>, n: nat)
    requires
        n <= t.len(),
        holds_at(s, pos, text_entries(t, n)),
        forall|i: int| 0 <= i < t.len() ==> encode_utf8(#[trigger] t[i]).len() <= u64::MAX,
    ensures
        text_entries(t, n).len() >= 8 * n,
        cached_texts(s, pos, n) == Some((t.take(n as int), pos + text_entries(t, n).len())),
    decreases n,
{
    if n > 0 {
        let m = (n - 1) as nat;
        let b = encode_utf8(t[m as int]);
        let before = text_entries(t, m);
        lemma_holds_split(s, pos, before, block_bytes(b));
        lemma_texts_read(s, pos, t, m);
        lemma_block_read(s, pos + before.len(), b);
        vstd::utf8::encode_utf8_decode_utf8(t[m as int]);
        vstd::utf8::encode_utf8_valid_utf8(t[m as int]);
        assert(t.take(n as int) =~= t.take(m as int).push(t[m as int]));
    } else {
        assert(t.take(0) =~= Seq::<Seq<char>>::empty());
    }
}

proof fn lemma_paths_read(s: Seq<u8>, pos: int, paths: Option<Seq<Seq<char>>>)
    requires
        holds_at(s, pos, paths_bytes(paths)),
        match paths {
            None => true,
            Some(t) => t.len() <= u64::MAX && forall|i: int|
                0 <= i < t.len() ==> encode_utf8(#[trigger] t[i]).len() <= u64::MAX,
        },
    ensures
        cached_paths(s, pos) == Some(paths),
{
    match paths {
        None => {
            assert(s.subrange(pos, pos + 1)[0] == 0);
        },
        Some(t) => {
            let list = text_entries(t, t.len());
            lemma_holds_split(s, pos, seq![1u8], u64_bytes(t.len() as u64) + list);
            assert(s.subrange(pos, pos + 1)[0] == 1);
            lemma_holds_split(s, pos + 1, u64_bytes(t.len() as u64), list);
            lemma_holds_u64(s, pos + 1, t.len() as u64);
            lemma_texts_read(s, pos + 9, t, t.len());
            assert(t.take(t.len() as int) =~= t);
        },
    }
}

proof fn lemma_tail_read(
    s: Seq<u8>,
    pos: int,
    v: IndexView,
    bundles: Seq<BundleView>,
    files: Seq<FileView>,
)
    requires
        cacheable(v),
        holds_at(s, pos, tail_bytes(v)),
    ensures
        cached_tail(s, pos, v.raw, bundles, files) == Some(
            IndexView { bundles, files: by_hash(files), file_order: hashes(files), ..v },
        ),
{
    let n = v.directories.len();
    let dirs = directory_entries(v.directories, n);
    let e = paths_bytes(v.paths);
    let d = dirs + e;
    let c = u64_bytes(n as u64) + d;
    let b = block_bytes(v.directory_bytes) + c;
    let a = u64_bytes(v.file_count_pos as u64) + b;
    let mode = seq![mode_byte(v.hash_mode)];
    lemma_holds_split(s, pos, mode, a);
    assert(s.subrange(pos, pos + 1)[0] == mode_byte(v.hash_mode));
    lemma_holds_split(s, pos + 1, u64_bytes(v.file_count_pos as u64), b);
    lemma_holds_u64(s, pos + 1, v.file_count_pos as u64);
    lemma_holds_split(s, pos + 9, block_bytes(v.directory_bytes), c);
    lemma_block_read(s, pos + 9, v.directory_bytes);
    let p = pos + 17 + v.directory_bytes.len();
    lemma_holds_split(s, p, u64_bytes(n as u64), d);
    lemma_holds_u64(s, p, n as u64);
    lemma_holds_split(s, p + 8, dirs, e);
    lemma_directories_read(s, p + 8, v.directories, n);
    assert(v.directories.take(n as int) =~= v.directories);
    lemma_paths_read(s, p + 8 + 20 * n, v.paths);
    assert(count_at(s, p, 20) == Some(n));
}

/// An index that is cached without loss is read back as it was, but for the
/// noted places of the bundle sizes, which are those in the cache.
pub proof fn law_cache_round_trip(v: IndexView, key: KeyView)
    requires
        cacheable(v),
        encode_utf8(key.source).len() <= u64::MAX,
    ensures
        cached_index(cache_bytes(v, key), key) is Some,
        ({
            let w = cached_index(cache_bytes(v, key), key)->0;
            &&& w == (IndexView { bundles: w.bundles, ..v })
            &&& crate::index_update::same_bundles(w.bundles, v.bundles)
        }),
{
    let s = cache_bytes(v, key);
    let h = cache_header(key);
    let tail = tail_bytes(v);
    let fe = file_entries(v.file_order, v.files, v.file_order.len());
    let fcount = v.files.dom().len();
    let be = bundle_entries(v.bundles, v.bundles.len());
    let e = fe + tail;
    let d = u64_bytes(fcount as u64) + e;
    let c = be + d;
    let b = u64_bytes(v.bundles.len() as u64) + c;
    let a = block_bytes(v.raw) + b;
    assert(s.subrange(0, s.len() as int) =~= s);
    lemma_holds_split(s, 0, h, a);
    lemma_header_read(s, key);
    let p0 = h.len() as int;
    lemma_holds_split(s, p0, block_bytes(v.raw), b);
    lemma_block_read(s, p0, v.raw);
    let p1 = p0 + 8 + v.raw.len();
    lemma_holds_split(s, p1, u64_bytes(v.bundles.len() as u64), c);
    lemma_holds_u64(s, p1, v.bundles.len() as u64);
    lemma_holds_split(s, p1 + 8, be, d);
    lemma_bundles_read(s, p1 + 8, v.bundles, v.bundles.len());
    assert(count_at(s, p1, 8) == Some(v.bundles.len()));
    let bundles = placed_bundles(v.bundles, p1 + 8, v.bundles.len());
    lemma_placed_same(v.bundles, p1 + 8, v.bundles.len());
    lemma_listed_map(v);
    lemma_files_and_tail_read(s, p1 + 8 + be.len(), v, bundles);
}

/// The files of a cache and what follows them.
proof fn lemma_files_and_tail_read(s: Seq<u8>, pos: int, v: IndexView, bundles: Seq<BundleView>)
    requires
        cacheable(v),
        crate::index_update::same_bundles(bundles, v.bundles),
        holds_at(
            s,
            pos,
            u64_bytes(v.files.dom().len() as u64) + (file_entries(
                v.file_order,
                v.files,
                v.file_order.len(),
            ) + tail_bytes(v)),
        ),
    ensures
        count_at(s, pos, 28) == Some(v.file_order.len()),
        ({
            let files = cached_files(s, pos + 8, bundles, v.file_order.len());
            &&& files is Some
            &&& cached_tail(s, pos + 8 + 28 * v.file_order.len(), v.raw, bundles, files->0)
                == Some(IndexView { bundles, ..v })
        }),
{
    lemma_listed_map(v);
    let n = v.file_order.len();
    let fe = file_entries(v.file_order, v.files, n);
    let tail = tail_bytes(v);
    lemma_holds_split(s, pos, u64_bytes(n as u64), fe + tail);
    lemma_holds_u64(s, pos, n as u64);
    lemma_holds_split(s, pos + 8, fe, tail);
    lemma_files_read(s, pos + 8, v, bundles, n);
    let files = Seq::new(n, |i: int| v.files[v.file_order[i]]);
    lemma_tail_read(s, pos + 8 + 28 * n, v, bundles, files);
}

/// An index that describes its bytes still does so when it comes out of the
/// cache.
pub proof fn law_cached_index_describes_its_bytes(v: IndexView, key: KeyView)
    requires
        cacheable(v),
        v.describes_bytes(),
        v.positions_valid(),
        encode_utf8(key.source).len() <= u64::MAX,
    ensures
        cached_index(cache_bytes(v, key), key) is Some,
        cached_index(cache_bytes(v, key), key)->0.describes_bytes(),
        cached_index(cache_bytes(v, key), key)->0.positions_valid(),
{
    law_cache_round_trip(v, key);
}

} // verus!
