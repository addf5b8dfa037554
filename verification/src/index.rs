//! The bundle index: which file lies where in which bundle.

use crate::bytes::{byte_seqs, copy_range, read_u32_at, read_u64_at, u32_at, u64_at};
use crate::compression::{
    chunk_count_of, decompress_bundle, decompressed, pack_uncompressed_bundle, packed, BundleError,
};
use crate::hashing::{hash_path, path_hash_of, HashMode};
use crate::text::{
    chars_of, decode_bytes, ends_with, has_prefix, has_suffix, lower_all, lower_chars, starts_with,
    texts,
};
use std::collections::HashMap;
use vstd::prelude::*;
use vstd::utf8::{decode_utf8, valid_utf8};

verus! {

broadcast use vstd::std_specs::hash::group_hash_axioms;

/// Where a file lies: its bundle, and its place in the uncompressed bundle.
#[derive(Debug)]
pub struct BundleFile {
    pub hash: u64,
    pub bundle_index: u32,
    pub bundle_name: String,
    pub offset: u32,
    pub size: u32,
    /// Where the record of the file starts in the index.
    pub record_pos: usize,
}

/// What a `BundleFile` says.
pub struct FileView {
    pub hash: u64,
    pub bundle_index: u32,
    pub bundle_name: Seq<char>,
    pub offset: u32,
    pub size: u32,
    pub record_pos: int,
}

impl View for BundleFile {
    type V = FileView;

    open spec fn view(&self) -> FileView {
        FileView {
            hash: self.hash,
            bundle_index: self.bundle_index,
            bundle_name: self.bundle_name@,
            offset: self.offset,
            size: self.size,
            record_pos: self.record_pos as int,
        }
    }
}

impl Clone for BundleFile {
    fn clone(&self) -> (r: BundleFile)
        ensures
            r == *self,
    {
        BundleFile {
            hash: self.hash,
            bundle_index: self.bundle_index,
            bundle_name: self.bundle_name.clone(),
            offset: self.offset,
            size: self.size,
            record_pos: self.record_pos,
        }
    }
}

/// A bundle: its name, its uncompressed size, and where the index holds that
/// size.
#[derive(Debug)]
pub struct BundleInfo {
    pub name: String,
    pub uncompressed_size: u32,
    pub size_pos: usize,
}

/// What a `BundleInfo` says.
pub struct BundleView {
    pub name: Seq<char>,
    pub uncompressed_size: u32,
    pub size_pos: int,
}

impl View for BundleInfo {
    type V = BundleView;

    open spec fn view(&self) -> BundleView {
        BundleView {
            name: self.name@,
            uncompressed_size: self.uncompressed_size,
            size_pos: self.size_pos as int,
        }
    }
}

/// A directory: the part of the directory data that spells its paths.
#[derive(Debug, Clone, Copy, PartialEq, Eq, Structural)]
pub struct DirectoryRecord {
    pub path_hash: u64,
    pub offset: u32,
    pub size: u32,
    pub recursive_size: u32,
}

/// A path with the file that it names.
#[derive(Debug)]
pub struct IndexedPath {
    pub path: String,
    pub file: BundleFile,
}

/// What an `IndexedPath` says.
pub struct IndexedView {
    pub path: Seq<char>,
    pub file: FileView,
}

impl View for IndexedPath {
    type V = IndexedView;

    open spec fn view(&self) -> IndexedView {
        IndexedView { path: self.path@, file: self.file@ }
    }
}

/// The index.
#[derive(Debug)]
pub struct BundleIndex {
    /// The bytes that the rest was read from, kept up to date.
    pub raw_decompressed: Vec<u8>,
    pub bundles: Vec<BundleInfo>,
    pub hash_mode: HashMode,
    pub files: HashMap<u64, BundleFile>,
    /// The hashes of the files in the order of their records.
    pub file_order: Vec<u64>,
    /// Where the number of files stands: behind the bundles.
    pub file_count_pos: usize,
    pub directory_bytes_compressed: Vec<u8>,
    pub directories: Vec<DirectoryRecord>,
    /// The paths, once they have been built.
    pub paths: Option<Vec<String>>,
}

/// What a `BundleIndex` says.
#[verifier::ext_equal]
pub struct IndexView {
    pub raw: Seq<u8>,
    pub bundles: Seq<BundleView>,
    pub hash_mode: HashMode,
    pub files: Map<u64, FileView>,
    pub file_order: Seq<u64>,
    pub file_count_pos: int,
    pub directory_bytes: Seq<u8>,
    pub directories: Seq<DirectoryRecord>,
    pub paths: Option<Seq<Seq<char>>>,
}

pub open spec fn bundle_views(v: Seq<BundleInfo>) -> Seq<BundleView> {
    v.map_values(|b: BundleInfo| b@)
}

pub open spec fn file_views(m: Map<u64, BundleFile>) -> Map<u64, FileView> {
    m.map_values(|f: BundleFile| f@)
}

pub open spec fn indexed_views(v: Seq<IndexedPath>) -> Seq<IndexedView> {
    v.map_values(|p: IndexedPath| p@)
}

pub open spec fn paths_view(paths: Option<Vec<String>>) -> Option<Seq<Seq<char>>> {
    match paths {
        Some(v) => Some(texts(v@)),
        None => None,
    }
}

impl View for BundleIndex {
    type V = IndexView;

    open spec fn view(&self) -> IndexView {
        IndexView {
            raw: self.raw_decompressed@,
            bundles: bundle_views(self.bundles@),
            hash_mode: self.hash_mode,
            files: file_views(self.files@),
            file_order: self.file_order@,
            file_count_pos: self.file_count_pos as int,
            directory_bytes: self.directory_bytes_compressed@,
            directories: self.directories@,
            paths: paths_view(self.paths),
        }
    }
}

/// Why an index cannot be read or changed.
#[derive(Debug, Clone, Copy, PartialEq, Eq, Structural)]
pub enum IndexError {
    /// The index ends early.
    Truncated,
    /// The name of a bundle is not UTF-8.
    NameNotUtf8,
    /// A file refers to a bundle that is not there.
    InvalidBundleIndex(u32),
    /// The hash of the root directory belongs to no known hash mode.
    UnsupportedSentinel(u64),
    /// There are no directories.
    NoDirectories,
    /// There is no file with that hash.
    UnknownHash(u64),
    /// The paths of a directory reach beyond the directory data.
    DirectoryExceedsData,
    /// A path is cut off.
    PathTruncated,
    /// A path is not UTF-8.
    PathNotUtf8,
    /// The directory data cannot be decompressed.
    DirectoryData(BundleError),
    /// A number does not fit into its field.
    TooLarge,
}

pub const MURMUR_SENTINEL: u64 = 0xF42A94E69CFF42FE;

pub const FNV_SENTINEL: u64 = 0x07E47507B4A92E53;

/// The bundle whose record is at `pos`, and where the record ends.
pub open spec fn bundle_at(s: Seq<u8>, pos: int) -> Result<(BundleView, int), IndexError> {
    if pos + 4 > s.len() {
        Err(IndexError::Truncated)
    } else {
        let name_end = pos + 4 + u32_at(s, pos);
        if name_end + 4 > s.len() {
            Err(IndexError::Truncated)
        } else if !valid_utf8(s.subrange(pos + 4, name_end)) {
            Err(IndexError::NameNotUtf8)
        } else {
            Ok(
                (
                    BundleView {
                        name: decode_utf8(s.subrange(pos + 4, name_end)),
                        uncompressed_size: u32_at(s, name_end),
                        size_pos: name_end,
                    },
                    name_end + 4,
                ),
            )
        }
    }
}

/// The first `n` bundles, whose records start behind their number, and where the
/// last record ends.
pub open spec fn bundles_at(s: Seq<u8>, n: nat) -> Result<(Seq<BundleView>, int), IndexError>
    decreases n,
{
    if n == 0 {
        Ok((Seq::empty(), 4))
    } else {
        match bundles_at(s, (n - 1) as nat) {
            Err(e) => Err(e),
            Ok((before, pos)) => match bundle_at(s, pos) {
                Err(e) => Err(e),
                Ok((b, end)) => Ok((before.push(b), end)),
            },
        }
    }
}

/// The file whose record is at `pos`.
pub open spec fn file_at(s: Seq<u8>, pos: int, bundles: Seq<BundleView>) -> Result<
    FileView,
    IndexError,
> {
    if pos + 20 > s.len() {
        Err(IndexError::Truncated)
    } else {
        let bundle_index = u32_at(s, pos + 8);
        if bundle_index >= bundles.len() {
            Err(IndexError::InvalidBundleIndex(bundle_index))
        } else {
            Ok(
                FileView {
                    hash: u64_at(s, pos),
                    bundle_index,
                    bundle_name: bundles[bundle_index as int].name,
                    offset: u32_at(s, pos + 12),
                    size: u32_at(s, pos + 16),
                    record_pos: pos,
                },
            )
        }
    }
}

/// The first `n` files, whose records start at `start`.
pub open spec fn files_at(s: Seq<u8>, start: int, bundles: Seq<BundleView>, n: nat) -> Result<
    Seq<FileView>,
    IndexError,
>
    decreases n,
{
    if n == 0 {
        Ok(Seq::empty())
    } else {
        match files_at(s, start, bundles, (n - 1) as nat) {
            Err(e) => Err(e),
            Ok(before) => match file_at(s, start + 20 * (n - 1), bundles) {
                Err(e) => Err(e),
                Ok(f) => Ok(before.push(f)),
            },
        }
    }
}

/// The files by their hash; of several with the same, the last.
pub open spec fn by_hash(files: Seq<FileView>) -> Map<u64, FileView>
    decreases files.len(),
{
    if files.len() == 0 {
        Map::empty()
    } else {
        by_hash(files.drop_last()).insert(files.last().hash, files.last())
    }
}

pub open spec fn hashes(files: Seq<FileView>) -> Seq<u64> {
    files.map_values(|f: FileView| f.hash)
}

/// The directory whose record is at `pos`.
pub open spec fn directory_at(s: Seq<u8>, pos: int) -> DirectoryRecord {
    DirectoryRecord {
        path_hash: u64_at(s, pos),
        offset: u32_at(s, pos + 8),
        size: u32_at(s, pos + 12),
        recursive_size: u32_at(s, pos + 16),
    }
}

pub open spec fn directories_at(s: Seq<u8>, start: int, n: nat) -> Seq<DirectoryRecord> {
    Seq::new(n, |i: int| directory_at(s, start + 20 * i))
}

/// The hash mode that the hash of the root directory tells.
pub open spec fn mode_of(directories: Seq<DirectoryRecord>) -> Result<HashMode, IndexError> {
    if directories.len() == 0 {
        Err(IndexError::NoDirectories)
    } else if directories[0].path_hash == MURMUR_SENTINEL {
        Ok(HashMode::Murmur64A)
    } else if directories[0].path_hash == FNV_SENTINEL {
        Ok(HashMode::Fnv1A)
    } else {
        Err(IndexError::UnsupportedSentinel(directories[0].path_hash))
    }
}

/// What follows the bundles: files, directories and directory data.
pub open spec fn rest_of(s: Seq<u8>, bundles: Seq<BundleView>, pos: int) -> Result<
    IndexView,
    IndexError,
> {
    if pos + 4 > s.len() {
        Err(IndexError::Truncated)
    } else {
        let file_count = u32_at(s, pos) as nat;
        match files_at(s, pos + 4, bundles, file_count) {
            Err(e) => Err(e),
            Ok(files) => {
                let dir_pos = pos + 4 + 20 * file_count;
                if dir_pos + 4 > s.len() {
                    Err(IndexError::Truncated)
                } else {
                    let dir_count = u32_at(s, dir_pos) as nat;
                    let data_pos = dir_pos + 4 + 20 * dir_count;
                    if data_pos > s.len() {
                        Err(IndexError::Truncated)
                    } else {
                        let directories = directories_at(s, dir_pos + 4, dir_count);
                        match mode_of(directories) {
                            Err(e) => Err(e),
                            Ok(hash_mode) => Ok(
                                IndexView {
                                    raw: s,
                                    bundles,
                                    hash_mode,
                                    files: by_hash(files),
                                    file_order: hashes(files),
                                    file_count_pos: pos,
                                    directory_bytes: s.subrange(data_pos, s.len() as int),
                                    directories,
                                    paths: None,
                                },
                            ),
                        }
                    }
                }
            },
        }
    }
}

/// The index that the bytes `s` spell.
pub open spec fn parsed(s: Seq<u8>) -> Result<IndexView, IndexError> {
    if s.len() < 4 {
        Err(IndexError::Truncated)
    } else {
        match bundles_at(s, u32_at(s, 0) as nat) {
            Err(e) => Err(e),
            Ok((bundles, pos)) => rest_of(s, bundles, pos),
        }
    }
}

proof fn lemma_bundles_error_stays(s: Seq<u8>, i: nat, n: nat)
    requires
        i <= n,
        bundles_at(s, i) is Err,
    ensures
        bundles_at(s, n) == bundles_at(s, i),
    decreases n,
{
    if i < n {
        lemma_bundles_error_stays(s, i, (n - 1) as nat);
    }
}

proof fn lemma_files_error_stays(
    s: Seq<u8>,
    start: int,
    bundles: Seq<BundleView>,
    i: nat,
    n: nat,
)
    requires
        i <= n,
        files_at(s, start, bundles, i) is Err,
    ensures
        files_at(s, start, bundles, n) == files_at(s, start, bundles, i),
    decreases n,
{
    if i < n {
        lemma_files_error_stays(s, start, bundles, i, (n - 1) as nat);
    }
}

fn read_bundle(s: &[u8], pos: usize) -> (r: Result<(BundleInfo, usize), IndexError>)
    requires
        pos <= s@.len(),
    ensures
        match r {
            Ok((b, end)) => bundle_at(s@, pos as int) == Ok::<(BundleView, int), IndexError>(
                (b@, end as int),
            ) && end <= s@.len(),
            Err(e) => bundle_at(s@, pos as int) == Err::<(BundleView, int), IndexError>(e),
        },
{
    let total: usize = s.len();
    let len: usize = match read_u32_at(s, pos) {
        Some(v) => v as usize,
        None => return Err(IndexError::Truncated),
    };
    if len > total - pos - 4 {
        return Err(IndexError::Truncated);
    }
    let name_end: usize = pos + 4 + len;
    let uncompressed_size: u32 = match read_u32_at(s, name_end) {
        Some(v) => v,
        None => return Err(IndexError::Truncated),
    };
    let name = match decode_bytes(copy_range(s, pos + 4, name_end)) {
        Some(v) => v,
        None => return Err(IndexError::NameNotUtf8),
    };
    Ok((BundleInfo { name, uncompressed_size, size_pos: name_end }, name_end + 4))
}

fn read_bundles(s: &[u8], n: u32) -> (r: Result<(Vec<BundleInfo>, usize), IndexError>)
    requires
        s@.len() >= 4,
    ensures
        match r {
            Ok((v, end)) => bundles_at(s@, n as nat) == Ok::<(Seq<BundleView>, int), IndexError>(
                (bundle_views(v@), end as int),
            ) && end <= s@.len(),
            Err(e) => bundles_at(s@, n as nat) == Err::<(Seq<BundleView>, int), IndexError>(e),
        },
{
    let mut bundles: Vec<BundleInfo> = Vec::new();
    let mut pos: usize = 4;
    let mut i: u32 = 0;
    assert(bundle_views(bundles@) =~= Seq::<BundleView>::empty());
    while i < n
        invariant
            i <= n,
            pos <= s@.len(),
            bundles_at(s@, i as nat) == Ok::<(Seq<BundleView>, int), IndexError>(
                (bundle_views(bundles@), pos as int),
            ),
        decreases n - i,
    {
        match read_bundle(s, pos) {
            Ok((b, end)) => {
                let ghost before = bundles@;
                let ghost view = b@;
                bundles.push(b);
                assert(bundle_views(bundles@) =~= bundle_views(before).push(view));
                pos = end;
            },
            Err(e) => {
                proof {
                    lemma_bundles_error_stays(s@, (i + 1) as nat, n as nat);
                }
                return Err(e);
            },
        }
        i = i + 1;
    }
    Ok((bundles, pos))
}

fn read_file_record(s: &[u8], pos: usize, bundles: &Vec<BundleInfo>) -> (r: Result<
    BundleFile,
    IndexError,
>)
    requires
        pos <= s@.len(),
    ensures
        match r {
            Ok(f) => file_at(s@, pos as int, bundle_views(bundles@)) == Ok::<FileView, IndexError>(
                f@,
            ),
            Err(e) => file_at(s@, pos as int, bundle_views(bundles@)) == Err::<
                FileView,
                IndexError,
            >(e),
        },
{
    let total: usize = s.len();
    if total - pos < 20 {
        return Err(IndexError::Truncated);
    }
    match (
        read_u64_at(s, pos),
        read_u32_at(s, pos + 8),
        read_u32_at(s, pos + 12),
        read_u32_at(s, pos + 16),
    ) {
        (Some(hash), Some(bundle_index), Some(offset), Some(size)) => {
            if bundle_index as usize >= bundles.len() {
                return Err(IndexError::InvalidBundleIndex(bundle_index));
            }
            let bundle_name = bundles[bundle_index as usize].name.clone();
            Ok(BundleFile { hash, bundle_index, bundle_name, offset, size, record_pos: pos })
        },
        _ => Err(IndexError::Truncated),
    }
}

fn read_files(s: &[u8], start: usize, bundles: &Vec<BundleInfo>, n: u32) -> (r: Result<
    (HashMap<u64, BundleFile>, Vec<u64>),
    IndexError,
>)
    requires
        start <= s@.len(),
    ensures
        match r {
            Ok((files, order)) => {
                let all = files_at(s@, start as int, bundle_views(bundles@), n as nat);
                all is Ok && file_views(files@) == by_hash(all->Ok_0) && order@ == hashes(
                    all->Ok_0,
                ) && start + 20 * n <= s@.len()
            },
            Err(e) => files_at(s@, start as int, bundle_views(bundles@), n as nat) == Err::<
                Seq<FileView>,
                IndexError,
            >(e),
        },
{
    let ghost views = bundle_views(bundles@);
    let total: usize = s.len();
    let mut files: HashMap<u64, BundleFile> = HashMap::new();
    let mut order: Vec<u64> = Vec::new();
    let mut pos: usize = start;
    let mut i: u32 = 0;
    let ghost mut seen: Seq<FileView> = Seq::empty();
    assert(file_views(files@) =~= by_hash(seen));
    assert(order@ =~= hashes(seen));
    while i < n
        invariant
            i <= n,
            total == s@.len(),
            pos == start + 20 * i,
            pos <= s@.len(),
            views == bundle_views(bundles@),
            files_at(s@, start as int, views, i as nat) == Ok::<Seq<FileView>, IndexError>(seen),
            file_views(files@) == by_hash(seen),
            order@ == hashes(seen),
        decreases n - i,
    {
        match read_file_record(s, pos, bundles) {
            Ok(f) => {
                let ghost view = f@;
                let ghost before = seen;
                proof {
                    seen = before.push(view);
                    assert(seen.drop_last() =~= before);
                }
                let ghost map_before = files@;
                order.push(f.hash);
                files.insert(f.hash, f);
                assert(order@ =~= hashes(seen));
                assert(file_views(files@) =~= by_hash(seen)) by {
                    assert(files@ == map_before.insert(f.hash, f));
                }
            },
            Err(e) => {
                proof {
                    lemma_files_error_stays(s@, start as int, views, (i + 1) as nat, n as nat);
                }
                return Err(e);
            },
        }
        pos = pos + 20;
        i = i + 1;
    }
    Ok((files, order))
}

fn read_directories(s: &[u8], start: usize, n: u32) -> (r: Option<Vec<DirectoryRecord>>)
    requires
        start <= s@.len(),
    ensures
        match r {
            Some(v) => start + 20 * n <= s@.len() && v@ == directories_at(
                s@,
                start as int,
                n as nat,
            ),
            None => start + 20 * n > s@.len(),
        },
{
    let mut out: Vec<DirectoryRecord> = Vec::new();
    let mut pos: usize = start;
    let total: usize = s.len();
    let mut i: u32 = 0;
    while i < n
        invariant
            i <= n,
            total == s@.len(),
            pos == start + 20 * i,
            pos <= s@.len(),
            out@ == directories_at(s@, start as int, i as nat),
        decreases n - i,
    {
        if total - pos < 20 {
            return None;
        }
        match (
            read_u64_at(s, pos),
            read_u32_at(s, pos + 8),
            read_u32_at(s, pos + 12),
            read_u32_at(s, pos + 16),
        ) {
            (Some(path_hash), Some(offset), Some(size), Some(recursive_size)) => {
                out.push(DirectoryRecord { path_hash, offset, size, recursive_size });
            },
            _ => return None,
        }
        pos = pos + 20;
        i = i + 1;
        assert(out@ =~= directories_at(s@, start as int, i as nat));
    }
    assert(out@ =~= directories_at(s@, start as int, n as nat));
    Some(out)
}

impl BundleIndex {
    /// Reads an index.
    pub fn parse(raw_decompressed: Vec<u8>) -> (r: Result<BundleIndex, IndexError>)
        ensures
            match r {
                Ok(index) => parsed(raw_decompressed@) == Ok::<IndexView, IndexError>(index@),
                Err(e) => parsed(raw_decompressed@) == Err::<IndexView, IndexError>(e),
            },
    {
        let s = raw_decompressed.as_slice();
        let total: usize = s.len();
        let bundle_count: u32 = match read_u32_at(s, 0) {
            Some(v) => v,
            None => return Err(IndexError::Truncated),
        };
        let (bundles, file_count_pos) = match read_bundles(s, bundle_count) {
            Ok(v) => v,
            Err(e) => return Err(e),
        };
        let file_count: u32 = match read_u32_at(s, file_count_pos) {
            Some(v) => v,
            None => return Err(IndexError::Truncated),
        };
        let (files, file_order) = match read_files(s, file_count_pos + 4, &bundles, file_count) {
            Ok(v) => v,
            Err(e) => return Err(e),
        };
        let dir_pos: usize = file_count_pos + 4 + 20 * file_count as usize;
        let dir_count: u32 = match read_u32_at(s, dir_pos) {
            Some(v) => v,
            None => return Err(IndexError::Truncated),
        };
        let directories = match read_directories(s, dir_pos + 4, dir_count) {
            Some(v) => v,
            None => return Err(IndexError::Truncated),
        };
        let data_pos: usize = dir_pos + 4 + 20 * dir_count as usize;
        let directory_bytes_compressed = copy_range(s, data_pos, total);
        if directories.len() == 0 {
            return Err(IndexError::NoDirectories);
        }
        let sentinel: u64 = directories[0].path_hash;
        let hash_mode = if sentinel == MURMUR_SENTINEL {
            HashMode::Murmur64A
        } else if sentinel == FNV_SENTINEL {
            HashMode::Fnv1A
        } else {
            return Err(IndexError::UnsupportedSentinel(sentinel));
        };
        Ok(
            BundleIndex {
                raw_decompressed,
                bundles,
                hash_mode,
                files,
                file_order,
                file_count_pos,
                directory_bytes_compressed,
                directories,
                paths: None,
            },
        )
    }
}

/// The first position from `pos` on that holds a zero byte, or the length.
pub open spec fn nul_from(s: Seq<u8>, pos: int) -> int
    decreases s.len() - pos,
{
    if pos < 0 || pos >= s.len() {
        s.len() as int
    } else if s[pos] == 0 {
        pos
    } else {
        nul_from(s, pos + 1)
    }
}

proof fn lemma_nul_from(s: Seq<u8>, pos: int)
    requires
        0 <= pos <= s.len(),
    ensures
        pos <= nul_from(s, pos) <= s.len(),
    decreases s.len() - pos,
{
    if pos < s.len() && s[pos] != 0 {
        lemma_nul_from(s, pos + 1);
    }
}

/// The paths that the directory data `s` spells from `pos` on, behind `out`.
///
/// The data is a list of numbers and texts. A zero switches between the phase
/// that fills the table of beginnings and the phase that spells paths; the first
/// empties the table. Any other number stands in front of a text and names the
/// beginning in the table, counted from one, that the text continues; a number
/// that the table does not have names none.
pub open spec fn paths_from(
    s: Seq<u8>,
    pos: int,
    generating: bool,
    table: Seq<Seq<char>>,
    out: Seq<Seq<char>>,
) -> Result<Seq<Seq<char>>, IndexError>
    decreases s.len() - pos,
    via paths_from_decreases
{
    if pos < 0 || pos + 4 > s.len() {
        Ok(out)
    } else {
        let number = u32_at(s, pos);
        if number == 0 {
            paths_from(
                s,
                pos + 4,
                !generating,
                if generating {
                    table
                } else {
                    Seq::empty()
                },
                out,
            )
        } else {
            let end = nul_from(s, pos + 4);
            if end >= s.len() {
                Err(IndexError::PathTruncated)
            } else if !valid_utf8(s.subrange(pos + 4, end)) {
                Err(IndexError::PathNotUtf8)
            } else {
                let suffix = decode_utf8(s.subrange(pos + 4, end));
                let text = if number <= table.len() {
                    table[number - 1] + suffix
                } else {
                    suffix
                };
                if generating {
                    paths_from(s, end + 1, generating, table.push(text), out)
                } else {
                    paths_from(s, end + 1, generating, table, out.push(text))
                }
            }
        }
    }
}

#[via_fn]
proof fn paths_from_decreases(
    s: Seq<u8>,
    pos: int,
    generating: bool,
    table: Seq<Seq<char>>,
    out: Seq<Seq<char>>,
) {
    if 0 <= pos && pos + 4 <= s.len() {
        lemma_nul_from(s, pos + 4);
    }
}

/// The paths that the directory data `s` spells from `pos` on, behind `out`, up to
/// the end or to the first fault.
pub open spec fn paths_read(
    s: Seq<u8>,
    pos: int,
    generating: bool,
    table: Seq<Seq<char>>,
    out: Seq<Seq<char>>,
) -> Seq<Seq<char>>
    decreases s.len() - pos,
    via paths_read_decreases
{
    if pos < 0 || pos + 4 > s.len() {
        out
    } else {
        let number = u32_at(s, pos);
        if number == 0 {
            paths_read(
                s,
                pos + 4,
                !generating,
                if generating {
                    table
                } else {
                    Seq::empty()
                },
                out,
            )
        } else {
            let end = nul_from(s, pos + 4);
            if end >= s.len() || !valid_utf8(s.subrange(pos + 4, end)) {
                out
            } else {
                let suffix = decode_utf8(s.subrange(pos + 4, end));
                let text = if number <= table.len() {
                    table[number - 1] + suffix
                } else {
                    suffix
                };
                if generating {
                    paths_read(s, end + 1, generating, table.push(text), out)
                } else {
                    paths_read(s, end + 1, generating, table, out.push(text))
                }
            }
        }
    }
}

#[via_fn]
proof fn paths_read_decreases(
    s: Seq<u8>,
    pos: int,
    generating: bool,
    table: Seq<Seq<char>>,
    out: Seq<Seq<char>>,
) {
    if 0 <= pos && pos + 4 <= s.len() {
        lemma_nul_from(s, pos + 4);
    }
}

/// The paths that the directories from `i` on spell, behind `out`.
pub open spec fn directory_paths(
    s: Seq<u8>,
    directories: Seq<DirectoryRecord>,
    i: int,
    out: Seq<Seq<char>>,
) -> Result<Seq<Seq<char>>, IndexError>
    decreases directories.len() - i,
{
    if i < 0 || i >= directories.len() {
        Ok(out)
    } else {
        let start = directories[i].offset as int;
        let end = start + directories[i].size;
        if end > s.len() {
            Err(IndexError::DirectoryExceedsData)
        } else {
            match paths_from(s.subrange(start, end), 0, false, Seq::empty(), out) {
                Err(e) => Err(e),
                Ok(more) => directory_paths(s, directories, i + 1, more),
            }
        }
    }
}

/// Reads a text that ends in a zero byte; also where the next thing starts.
pub fn read_nul_utf8(s: &[u8], pos: usize) -> (r: Result<(String, usize), IndexError>)
    requires
        pos <= s@.len(),
    ensures
        match r {
            Ok((text, next)) => {
                let end = nul_from(s@, pos as int);
                pos <= end < s@.len() && valid_utf8(s@.subrange(pos as int, end)) && text@
                    == decode_utf8(s@.subrange(pos as int, end)) && next == end + 1
            },
            Err(e) => {
                let end = nul_from(s@, pos as int);
                if end >= s@.len() {
                    e == IndexError::PathTruncated
                } else {
                    e == IndexError::PathNotUtf8 && !valid_utf8(s@.subrange(pos as int, end))
                }
            },
        },
{
    let total: usize = s.len();
    let mut end: usize = pos;
    while end < total && s[end] != 0
        invariant
            pos <= end <= total == s@.len(),
            nul_from(s@, pos as int) == nul_from(s@, end as int),
        decreases total - end,
    {
        end = end + 1;
    }
    if end == total {
        return Err(IndexError::PathTruncated);
    }
    match decode_bytes(copy_range(s, pos, end)) {
        Some(text) => Ok((text, end + 1)),
        None => Err(IndexError::PathNotUtf8),
    }
}

/// Adds the paths that the data of one directory spells; those in front of a fault
/// too.
pub fn build_paths(s: &[u8], out: &mut Vec<String>) -> (r: Result<(), IndexError>)
    ensures
        texts(final(out)@) == paths_read(s@, 0, false, Seq::empty(), texts(old(out)@)),
        match r {
            Ok(_) => paths_from(s@, 0, false, Seq::empty(), texts(old(out)@)) == Ok::<
                Seq<Seq<char>>,
                IndexError,
            >(texts(final(out)@)),
            Err(e) => paths_from(s@, 0, false, Seq::empty(), texts(old(out)@)) == Err::<
                Seq<Seq<char>>,
                IndexError,
            >(e),
        },
{
    let ghost start = texts(out@);
    let total: usize = s.len();
    let mut generating: bool = false;
    let mut table: Vec<String> = Vec::new();
    let mut pos: usize = 0;
    assert(texts(table@) =~= Seq::<Seq<char>>::empty());
    while pos <= total && total - pos >= 4
        invariant
            total == s@.len(),
            pos <= total,
            start == texts(old(out)@),
            paths_from(s@, 0, false, Seq::empty(), start) == paths_from(
                s@,
                pos as int,
                generating,
                texts(table@),
                texts(out@),
            ),
            paths_read(s@, 0, false, Seq::empty(), start) == paths_read(
                s@,
                pos as int,
                generating,
                texts(table@),
                texts(out@),
            ),
        decreases total - pos,
    {
        let number: u32 = match read_u32_at(s, pos) {
            Some(v) => v,
            None => return Ok(()),
        };
        if number == 0 {
            generating = !generating;
            if generating {
                table.clear();
                assert(texts(table@) =~= Seq::<Seq<char>>::empty());
            }
            pos = pos + 4;
        } else {
            let (suffix, next) = match read_nul_utf8(s, pos + 4) {
                Ok(v) => v,
                Err(e) => return Err(e),
            };
            let text = if number as usize <= table.len() {
                let mut t = table[number as usize - 1].clone();
                t.append(suffix.as_str());
                t
            } else {
                suffix
            };
            let ghost view = text@;
            if generating {
                let ghost before = table@;
                table.push(text);
                assert(texts(table@) =~= texts(before).push(view));
            } else {
                let ghost before = out@;
                out.push(text);
                assert(texts(out@) =~= texts(before).push(view));
            }
            pos = next;
        }
    }
    Ok(())
}

/// The paths that the directory data spells.
pub fn build_paths_from_directories(s: &[u8], directories: &Vec<DirectoryRecord>) -> (r: Result<
    Vec<String>,
    IndexError,
>)
    ensures
        match r {
            Ok(v) => directory_paths(s@, directories@, 0, Seq::empty()) == Ok::<
                Seq<Seq<char>>,
                IndexError,
            >(texts(v@)),
            Err(e) => directory_paths(s@, directories@, 0, Seq::empty()) == Err::<
                Seq<Seq<char>>,
                IndexError,
            >(e),
        },
{
    let mut out: Vec<String> = Vec::new();
    let n: usize = directories.len();
    let mut i: usize = 0;
    assert(texts(out@) =~= Seq::<Seq<char>>::empty());
    while i < n
        invariant
            i <= n == directories@.len(),
            directory_paths(s@, directories@, 0, Seq::empty()) == directory_paths(
                s@,
                directories@,
                i as int,
                texts(out@),
            ),
        decreases n - i,
    {
        let start: u64 = directories[i].offset as u64;
        let end: u64 = start + directories[i].size as u64;
        if end > s.len() as u64 {
            return Err(IndexError::DirectoryExceedsData);
        }
        let part = vstd::slice::slice_subrange(s, start as usize, end as usize);
        match build_paths(part, &mut out) {
            Ok(_) => {},
            Err(e) => return Err(e),
        }
        i = i + 1;
    }
    Ok(out)
}

/// The paths that the index has, or those that its directory data spells, given
/// what the codec wrote for the chunks of that data.
pub open spec fn built_paths(v: IndexView, decoded: Seq<Seq<u8>>) -> Result<
    Seq<Seq<char>>,
    IndexError,
> {
    match v.paths {
        Some(paths) => Ok(paths),
        None => match decompressed(v.directory_bytes, decoded) {
            Err(e) => Err(IndexError::DirectoryData(e)),
            Ok(data) => directory_paths(data, v.directories, 0, Seq::empty()),
        },
    }
}

/// The file that a path names.
pub open spec fn file_of(v: IndexView, path: Seq<char>) -> Option<FileView> {
    let hash = path_hash_of(v.hash_mode, path);
    if v.files.contains_key(hash) {
        Some(v.files[hash])
    } else {
        None
    }
}

/// Those of the first `n` paths that are kept and name a file, with the file.
pub open spec fn files_of_paths(
    v: IndexView,
    paths: Seq<Seq<char>>,
    keep: Seq<bool>,
    n: nat,
) -> Seq<IndexedView>
    decreases n,
{
    if n == 0 {
        Seq::empty()
    } else {
        let before = files_of_paths(v, paths, keep, (n - 1) as nat);
        let path = paths[n - 1];
        if !keep[n - 1] {
            before
        } else {
            match file_of(v, path) {
                Some(file) => before.push(IndexedView { path, file }),
                None => before,
            }
        }
    }
}

/// A path in lower case and with slashes.
pub open spec fn normalized(path: Seq<char>) -> Seq<char> {
    lower_all(path.map_values(|c: char| if c == '\\' { '/' } else { c }))
}

/// A path in lower case and with slashes.
pub fn normalize_chars(path: &str) -> (r: Vec<char>)
    ensures
        r@ == normalized(path@),
{
    let chars = chars_of(path);
    let n: usize = chars.len();
    let mut out: Vec<char> = Vec::new();
    let mut i: usize = 0;
    let ghost all = path@.map_values(|c: char| if c == '\\' { '/' } else { c });
    while i < n
        invariant
            i <= n == chars@.len(),
            chars@ == path@,
            all == path@.map_values(|c: char| if c == '\\' { '/' } else { c }),
            out@ == all.take(i as int),
        decreases n - i,
    {
        let c: char = chars[i];
        if c == '\\' {
            out.push('/');
        } else {
            out.push(c);
        }
        i = i + 1;
        assert(out@ =~= all.take(i as int));
    }
    assert(out@ =~= all);
    lower_chars(out.as_slice())
}

/// Whether a path lies below `prefix` and ends in one of the extensions.
pub open spec fn path_matches(
    path: Seq<char>,
    prefix: Seq<char>,
    extensions: Seq<Seq<char>>,
) -> bool {
    &&& starts_with(normalized(path), prefix)
    &&& exists|i: int|
        0 <= i < extensions.len() && ends_with(normalized(path), #[trigger] extensions[i])
}

fn matches_path(path: &str, prefix: &str, extensions: &Vec<String>) -> (r: bool)
    ensures
        r == path_matches(path@, prefix@, texts(extensions@)),
{
    let chars = normalize_chars(path);
    let p = chars_of(prefix);
    if !has_prefix(chars.as_slice(), p.as_slice()) {
        return false;
    }
    let ghost all = texts(extensions@);
    let n: usize = extensions.len();
    let mut i: usize = 0;
    while i < n
        invariant
            i <= n == extensions@.len(),
            all == texts(extensions@),
            chars@ == normalized(path@),
            starts_with(chars@, prefix@),
            forall|k: int| 0 <= k < i ==> !ends_with(chars@, #[trigger] all[k]),
        decreases n - i,
    {
        let e = chars_of(extensions[i].as_str());
        assert(e@ == all[i as int]);
        if has_suffix(chars.as_slice(), e.as_slice()) {
            return true;
        }
        i = i + 1;
    }
    false
}

/// Whether some bundle has a name that starts with `prefix`.
pub open spec fn has_bundle_with_prefix(bundles: Seq<BundleView>, prefix: Seq<char>) -> bool {
    exists|i: int| 0 <= i < bundles.len() && starts_with((#[trigger] bundles[i]).name, prefix)
}

/// The position of each hash in the order of the records; of several, the last.
pub open spec fn order_map(order: Seq<u64>) -> Map<u64, usize>
    decreases order.len(),
{
    if order.len() == 0 {
        Map::empty()
    } else {
        order_map(order.drop_last()).insert(order.last(), (order.len() - 1) as usize)
    }
}

impl BundleIndex {
    /// The hash of a path in this index.
    pub fn name_hash(&self, path: &str) -> (h: u64)
        ensures
            h == path_hash_of(self.hash_mode, path@),
    {
        hash_path(self.hash_mode, path)
    }

    /// The file that a path names.
    pub fn file_by_path(&self, path: &str) -> (r: Option<&BundleFile>)
        ensures
            match r {
                Some(f) => file_of(self@, path@) == Some(f@),
                None => file_of(self@, path@) is None,
            },
    {
        let hash: u64 = self.name_hash(path);
        self.files.get(&hash)
    }

    /// The name of a bundle.
    pub fn bundle_name(&self, bundle_index: u32) -> (r: Result<&str, IndexError>)
        ensures
            match r {
                Ok(name) => bundle_index < self@.bundles.len() && name@
                    == self@.bundles[bundle_index as int].name,
                Err(e) => bundle_index >= self@.bundles.len() && e
                    == IndexError::InvalidBundleIndex(bundle_index),
            },
    {
        if bundle_index as usize >= self.bundles.len() {
            return Err(IndexError::InvalidBundleIndex(bundle_index));
        }
        Ok(self.bundles[bundle_index as usize].name.as_str())
    }

    /// Builds the paths, unless they are built. `decoded` is what the codec
    /// wrote for the chunks of the directory data.
    pub fn ensure_paths_built(&mut self, decoded: &Vec<Vec<u8>>) -> (r: Result<(), IndexError>)
        ensures
            match r {
                Ok(_) => final(self)@ == (IndexView {
                    paths: Some(built_paths(old(self)@, byte_seqs(decoded@))->Ok_0),
                    ..old(self)@
                }) && built_paths(old(self)@, byte_seqs(decoded@)) is Ok,
                Err(e) => *final(self) == *old(self) && built_paths(
                    old(self)@,
                    byte_seqs(decoded@),
                ) == Err::<Seq<Seq<char>>, IndexError>(e),
            },
    {
        if self.paths.is_some() {
            return Ok(());
        }
        let data = match decompress_bundle(self.directory_bytes_compressed.as_slice(), decoded) {
            Ok(v) => v,
            Err(e) => return Err(IndexError::DirectoryData(e)),
        };
        match build_paths_from_directories(data.as_slice(), &self.directories) {
            Ok(paths) => {
                self.paths = Some(paths);
                Ok(())
            },
            Err(e) => Err(e),
        }
    }

    /// The paths, as far as they are built.
    pub fn paths(&self) -> (r: &[String])
        ensures
            texts(r@) == (match self@.paths {
                Some(paths) => paths,
                None => Seq::empty(),
            }),
    {
        match &self.paths {
            Some(v) => v.as_slice(),
            None => {
                let r: &[String] = &[];
                assert(texts(r@) =~= Seq::<Seq<char>>::empty());
                r
            },
        }
    }

    fn collect_kept(&self, keep: &Vec<bool>) -> (r: Vec<IndexedPath>)
        requires
            self@.paths is Some,
            keep@.len() == self@.paths->0.len(),
        ensures
            indexed_views(r@) == files_of_paths(
                self@,
                self@.paths->0,
                keep@,
                self@.paths->0.len(),
            ),
    {
        let mut out: Vec<IndexedPath> = Vec::new();
        let ghost all = self@.paths->0;
        let paths = self.paths();
        let n: usize = paths.len();
        let mut i: usize = 0;
        assert(indexed_views(out@) =~= files_of_paths(self@, all, keep@, 0));
        while i < n
            invariant
                i <= n == paths@.len(),
                n == keep@.len() == all.len(),
                all == texts(paths@),
                indexed_views(out@) == files_of_paths(self@, all, keep@, i as nat),
            decreases n - i,
        {
            assert(all[i as int] == paths@[i as int]@);
            if keep[i] {
                match self.file_by_path(paths[i].as_str()) {
                    Some(file) => {
                        let ghost before = out@;
                        let item = IndexedPath { path: paths[i].clone(), file: file.clone() };
                        let ghost view = item@;
                        out.push(item);
                        assert(indexed_views(out@) =~= indexed_views(before).push(view));
                    },
                    None => {},
                }
            }
            i = i + 1;
        }
        out
    }

    /// The paths below `prefix` with one of the extensions that name a file,
    /// with the file. Builds the paths, unless they are built.
    pub fn matching_paths(
        &mut self,
        decoded: &Vec<Vec<u8>>,
        prefix: &str,
        extensions: &Vec<String>,
    ) -> (r: Result<Vec<IndexedPath>, IndexError>)
        ensures
            match r {
                Ok(found) => {
                    let built = built_paths(old(self)@, byte_seqs(decoded@));
                    &&& built is Ok
                    &&& final(self)@ == (IndexView { paths: Some(built->Ok_0), ..old(self)@ })
                    &&& indexed_views(found@) == files_of_paths(
                        old(self)@,
                        built->Ok_0,
                        built->Ok_0.map_values(
                            |p: Seq<char>| path_matches(p, prefix@, texts(extensions@)),
                        ),
                        built->Ok_0.len(),
                    )
                },
                Err(e) => *final(self) == *old(self) && built_paths(
                    old(self)@,
                    byte_seqs(decoded@),
                ) == Err::<Seq<Seq<char>>, IndexError>(e),
            },
    {
        match self.ensure_paths_built(decoded) {
            Ok(_) => {},
            Err(e) => return Err(e),
        }
        let ghost all = self@.paths->0;
        let ghost wanted = all.map_values(
            |p: Seq<char>| path_matches(p, prefix@, texts(extensions@)),
        );
        let paths = self.paths();
        let n: usize = paths.len();
        let mut keep: Vec<bool> = Vec::new();
        let mut i: usize = 0;
        while i < n
            invariant
                i <= n == paths@.len(),
                all == texts(paths@),
                wanted == all.map_values(
                    |p: Seq<char>| path_matches(p, prefix@, texts(extensions@)),
                ),
                keep@ == wanted.take(i as int),
            decreases n - i,
        {
            assert(all[i as int] == paths@[i as int]@);
            keep.push(matches_path(paths[i].as_str(), prefix, extensions));
            i = i + 1;
            assert(keep@ =~= wanted.take(i as int));
        }
        assert(keep@ =~= wanted);
        let found = self.collect_kept(&keep);
        proof {
            lemma_files_of_paths_frame(old(self)@, self@, all, keep@, all.len());
        }
        Ok(found)
    }

    /// The paths for which `predicate` holds and that name a file, with the
    /// file. Builds the paths, unless they are built.
    pub fn matching_paths_by<F: FnMut(&str) -> bool>(
        &mut self,
        decoded: &Vec<Vec<u8>>,
        predicate: F,
    ) -> (r: Result<Vec<IndexedPath>, IndexError>)
        requires
            forall|p: &str| call_requires(predicate, (p,)),
        ensures
            match r {
                Ok(found) => {
                    let built = built_paths(old(self)@, byte_seqs(decoded@));
                    &&& built is Ok
                    &&& final(self)@ == (IndexView { paths: Some(built->Ok_0), ..old(self)@ })
                    &&& exists|keep: Seq<bool>, args: Seq<&str>|
                        {
                            &&& keep.len() == built->Ok_0.len()
                            &&& args.len() == built->Ok_0.len()
                            &&& forall|i: int|
                                0 <= i < keep.len() ==> (#[trigger] args[i])@ == built->Ok_0[i]
                                    && call_ensures(predicate, (args[i],), keep[i])
                            &&& indexed_views(found@) == #[trigger] files_of_paths(
                                old(self)@,
                                built->Ok_0,
                                keep,
                                args.len(),
                            )
                        }
                },
                Err(e) => *final(self) == *old(self) && built_paths(
                    old(self)@,
                    byte_seqs(decoded@),
                ) == Err::<Seq<Seq<char>>, IndexError>(e),
            },
    {
        match self.ensure_paths_built(decoded) {
            Ok(_) => {},
            Err(e) => return Err(e),
        }
        let ghost all = self@.paths->0;
        let paths = self.paths();
        let n: usize = paths.len();
        let mut keep: Vec<bool> = Vec::new();
        let ghost mut args: Seq<&str> = Seq::empty();
        let mut test = predicate;
        let mut i: usize = 0;
        while i < n
            invariant
                i <= n == paths@.len(),
                all == texts(paths@),
                test == predicate,
                forall|p: &str| call_requires(predicate, (p,)),
                keep@.len() == i,
                args.len() == i,
                forall|k: int|
                    0 <= k < i ==> (#[trigger] args[k])@ == all[k] && call_ensures(
                        predicate,
                        (args[k],),
                        keep@[k],
                    ),
            decreases n - i,
        {
            assert(all[i as int] == paths@[i as int]@);
            let path = paths[i].as_str();
            let kept: bool = test(path);
            keep.push(kept);
            proof {
                args = args.push(path);
            }
            i = i + 1;
        }
        let found = self.collect_kept(&keep);
        proof {
            lemma_files_of_paths_frame(old(self)@, self@, all, keep@, all.len());
        }
        Ok(found)
    }

    /// All paths that name a file, with the file. Builds the paths, unless they
    /// are built.
    pub fn indexed_paths(&mut self, decoded: &Vec<Vec<u8>>) -> (r: Result<
        Vec<IndexedPath>,
        IndexError,
    >)
        ensures
            match r {
                Ok(found) => {
                    let built = built_paths(old(self)@, byte_seqs(decoded@));
                    &&& built is Ok
                    &&& final(self)@ == (IndexView { paths: Some(built->Ok_0), ..old(self)@ })
                    &&& indexed_views(found@) == files_of_paths(
                        old(self)@,
                        built->Ok_0,
                        built->Ok_0.map_values(|p: Seq<char>| true),
                        built->Ok_0.len(),
                    )
                },
                Err(e) => *final(self) == *old(self) && built_paths(
                    old(self)@,
                    byte_seqs(decoded@),
                ) == Err::<Seq<Seq<char>>, IndexError>(e),
            },
    {
        match self.ensure_paths_built(decoded) {
            Ok(_) => {},
            Err(e) => return Err(e),
        }
        let ghost all = self@.paths->0;
        let ghost wanted = all.map_values(|p: Seq<char>| true);
        let n: usize = self.paths().len();
        assert(n == all.len());
        let mut keep: Vec<bool> = Vec::new();
        let mut i: usize = 0;
        while i < n
            invariant
                i <= n == all.len(),
                wanted == all.map_values(|p: Seq<char>| true),
                keep@ == wanted.take(i as int),
            decreases n - i,
        {
            keep.push(true);
            i = i + 1;
            assert(keep@ =~= wanted.take(i as int));
        }
        assert(keep@ =~= wanted);
        let found = self.collect_kept(&keep);
        proof {
            lemma_files_of_paths_frame(old(self)@, self@, all, keep@, all.len());
        }
        Ok(found)
    }

    /// The index as it is stored: its bytes in a bundle. `chunks` holds what the
    /// codec made of each piece of them.
    pub fn packed_bytes(&self, chunks: &Vec<Vec<u8>>) -> (r: Result<Vec<u8>, BundleError>)
        requires
            chunks@.len() == chunk_count_of(self@.raw.len()),
        ensures
            match r {
                Ok(out) => packed(self@.raw.len(), byte_seqs(chunks@)) == Ok::<
                    Seq<u8>,
                    BundleError,
                >(out@),
                Err(e) => packed(self@.raw.len(), byte_seqs(chunks@)) == Err::<
                    Seq<u8>,
                    BundleError,
                >(e),
            },
    {
        pack_uncompressed_bundle(self.raw_decompressed.as_slice(), chunks)
    }

    /// Whether some bundle has a name that starts with `prefix`.
    pub fn has_bundle_prefix(&self, prefix: &str) -> (r: bool)
        ensures
            r == has_bundle_with_prefix(self@.bundles, prefix@),
    {
        let p = chars_of(prefix);
        let ghost all = self@.bundles;
        let n: usize = self.bundles.len();
        let mut i: usize = 0;
        while i < n
            invariant
                i <= n == self.bundles@.len(),
                p@ == prefix@,
                all == bundle_views(self.bundles@),
                forall|k: int| 0 <= k < i ==> !starts_with((#[trigger] all[k]).name, prefix@),
            decreases n - i,
        {
            assert(all[i as int] == self.bundles@[i as int]@);
            let name = chars_of(self.bundles[i].name.as_str());
            if has_prefix(name.as_slice(), p.as_slice()) {
                return true;
            }
            i = i + 1;
        }
        false
    }

    /// The position of each file in the order of the records.
    pub fn file_order_map(&self) -> (r: HashMap<u64, usize>)
        ensures
            r@ == order_map(self.file_order@),
    {
        let mut r: HashMap<u64, usize> = HashMap::new();
        let n: usize = self.file_order.len();
        let mut i: usize = 0;
        assert(self.file_order@.take(0) =~= Seq::<u64>::empty());
        while i < n
            invariant
                i <= n == self.file_order@.len(),
                r@ == order_map(self.file_order@.take(i as int)),
            decreases n - i,
        {
            r.insert(self.file_order[i], i);
            i = i + 1;
            assert(self.file_order@.take(i as int).drop_last() =~= self.file_order@.take(i - 1));
        }
        assert(self.file_order@.take(n as int) =~= self.file_order@);
        r
    }
}

pub proof fn lemma_files_of_paths_frame(
    a: IndexView,
    b: IndexView,
    paths: Seq<Seq<char>>,
    keep: Seq<bool>,
    n: nat,
)
    requires
        a.files == b.files,
        a.hash_mode == b.hash_mode,
    ensures
        files_of_paths(a, paths, keep, n) == files_of_paths(b, paths, keep, n),
    decreases n,
{
    if n > 0 {
        lemma_files_of_paths_frame(a, b, paths, keep, (n - 1) as nat);
    }
}

} // verus!
