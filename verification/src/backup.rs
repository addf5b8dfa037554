//! The backup archive: the original bytes of the files that a patch replaces.
//!
//! A `BackupStore` holds the path of the archive and the bytes that it has on
//! disk, if it is there.

use crate::bytes::{
    copy_range, lemma_int_bytes, push_all, push_u32, push_u64, read_u32_at, read_u64_at, u32_at,
    u32_bytes, u64_at, u64_bytes,
};
use crate::install::{join_path, joined_path};
use crate::paths::{contains_path, eq_path, lists_path, same_path};
use crate::text::{decode_bytes, texts};
use vstd::prelude::*;

verus! {

/// "2SBK".
pub const MAGIC: u32 = 0x4B425332;

pub const VERSION: u32 = 2;

/// "2PGM".
pub const GGPK_META_MAGIC: u32 = 0x4D475032;

/// One file in the archive.
pub struct BackupEntry {
    pub rel_path: String,
    pub bytes: Vec<u8>,
}

/// What a `BackupEntry` holds.
pub struct EntryView {
    pub rel_path: Seq<char>,
    pub bytes: Seq<u8>,
}

impl View for BackupEntry {
    type V = EntryView;

    open spec fn view(&self) -> EntryView {
        EntryView { rel_path: self.rel_path@, bytes: self.bytes@ }
    }
}

pub open spec fn entry_views(v: Seq<BackupEntry>) -> Seq<EntryView> {
    v.map_values(|e: BackupEntry| e@)
}

/// The archive at a path.
pub struct BackupStore {
    pub path: String,
    pub archive: Option<Vec<u8>>,
}

/// What undoes a patch of the standalone archive.
#[derive(Debug, Clone, Copy, PartialEq, Eq, Structural)]
pub struct GgpkBackupMeta {
    pub bundles2_offset_pos: u64,
    pub original_bundles2_offset: u64,
    pub appended_start: u64,
    pub appended_end: u64,
}

/// Why the archive cannot be used.
#[derive(Debug, Clone, Copy, PartialEq, Eq, Structural)]
pub enum BackupError {
    /// There is no user data folder.
    NoDataDir,
    /// The header ends early.
    Truncated,
    /// The file is not a backup archive.
    NotABackup,
    /// The archive has a version that is not known.
    UnsupportedVersion(u32),
    /// The path of an entry is not UTF-8.
    PathNotUtf8,
    /// The entry about the standalone archive is not valid.
    InvalidMeta,
}

/// Where the entries of the archive `s` start.
pub open spec fn entries_start(s: Seq<u8>) -> Result<int, BackupError> {
    if s.len() < 4 {
        Err(BackupError::Truncated)
    } else if u32_at(s, 0) != MAGIC {
        Err(BackupError::NotABackup)
    } else if s.len() < 8 {
        Err(BackupError::Truncated)
    } else if !(1 <= u32_at(s, 4) <= VERSION) {
        Err(BackupError::UnsupportedVersion(u32_at(s, 4)))
    } else if u32_at(s, 4) == 1 {
        Ok(8)
    } else if s.len() < 12 {
        Err(BackupError::Truncated)
    } else {
        Ok(12 + u32_at(s, 8))
    }
}

/// Where the entry at `pos` ends, if all of it is there.
pub open spec fn entry_end(s: Seq<u8>, pos: int) -> Option<int> {
    if pos + 4 > s.len() {
        None
    } else {
        let data_len_pos = pos + 4 + u32_at(s, pos);
        if data_len_pos + 8 > s.len() {
            None
        } else {
            let end = data_len_pos + 8 + u64_at(s, data_len_pos);
            if end > s.len() {
                None
            } else {
                Some(end)
            }
        }
    }
}

/// The path and the bytes of the complete entry at `pos`.
pub open spec fn entry_parts(s: Seq<u8>, pos: int) -> (Seq<u8>, Seq<u8>) {
    let path_end = pos + 4 + u32_at(s, pos);
    (
        s.subrange(pos + 4, path_end),
        s.subrange(path_end + 8, path_end + 8 + u64_at(s, path_end)),
    )
}

/// The entries from `pos` on, behind those that were read before. An entry that
/// is cut off ends the archive.
pub open spec fn entries_from(s: Seq<u8>, pos: int, before: Seq<EntryView>) -> Result<
    Seq<EntryView>,
    BackupError,
>
    decreases s.len() - pos,
{
    match entry_end(s, pos) {
        None => Ok(before),
        Some(end) => {
            let (path, bytes) = entry_parts(s, pos);
            if pos < 0 || end <= pos {
                Ok(before)
            } else if !vstd::utf8::valid_utf8(path) {
                Err(BackupError::PathNotUtf8)
            } else {
                entries_from(
                    s,
                    end,
                    before.push(
                        EntryView { rel_path: vstd::utf8::decode_utf8(path), bytes },
                    ),
                )
            }
        },
    }
}

/// The entries of the archive `s`.
pub open spec fn archive_entries(s: Seq<u8>) -> Result<Seq<EntryView>, BackupError> {
    match entries_start(s) {
        Err(e) => Err(e),
        Ok(start) => entries_from(s, start, Seq::empty()),
    }
}

/// The bytes of one entry.
pub open spec fn entry_bytes(e: EntryView) -> Seq<u8> {
    let path = vstd::utf8::encode_utf8(e.rel_path);
    u32_bytes(path.len() as u32) + path + u64_bytes(e.bytes.len() as u64) + e.bytes
}

/// The text that the header holds for the reader of a backup.
pub open spec fn manifest_text(game_dir: Seq<char>) -> Seq<char> {
    "tiny-poe2smoother v0.1.0 game="@ + game_dir
}

/// The header of a new archive.
pub open spec fn header_bytes(game_dir: Seq<char>) -> Seq<u8> {
    let manifest = vstd::utf8::encode_utf8(manifest_text(game_dir));
    u32_bytes(MAGIC) + u32_bytes(VERSION) + u32_bytes(manifest.len() as u32) + manifest
}

/// Reads the entries of an archive.
pub fn read_entries(s: &[u8]) -> (r: Result<Vec<BackupEntry>, BackupError>)
    ensures
        match r {
            Ok(v) => archive_entries(s@) == Ok::<Seq<EntryView>, BackupError>(entry_views(v@)),
            Err(e) => archive_entries(s@) == Err::<Seq<EntryView>, BackupError>(e),
        },
{
    let total: usize = s.len();
    let magic: u32 = match read_u32_at(s, 0) {
        Some(v) => v,
        None => return Err(BackupError::Truncated),
    };
    if magic != MAGIC {
        return Err(BackupError::NotABackup);
    }
    let version: u32 = match read_u32_at(s, 4) {
        Some(v) => v,
        None => return Err(BackupError::Truncated),
    };
    if !(1 <= version && version <= VERSION) {
        return Err(BackupError::UnsupportedVersion(version));
    }
    let mut start: u64 = 8;
    if version >= 2 {
        match read_u32_at(s, 8) {
            Some(len) => start = 12 + len as u64,
            None => return Err(BackupError::Truncated),
        }
    }
    let mut entries: Vec<BackupEntry> = Vec::new();
    assert(entry_views(entries@) =~= Seq::<EntryView>::empty());
    if start >= total as u64 {
        return Ok(entries);
    }
    let mut pos: usize = start as usize;
    loop
        invariant
            pos <= total == s@.len(),
            archive_entries(s@) == entries_from(s@, pos as int, entry_views(entries@)),
        decreases total - pos,
    {
        let path_len: usize = match read_u32_at(s, pos) {
            Some(v) => v as usize,
            None => return Ok(entries),
        };
        if path_len > total - pos - 4 {
            return Ok(entries);
        }
        let path_end: usize = pos + 4 + path_len;
        let data_len: u64 = match read_u64_at(s, path_end) {
            Some(v) => v,
            None => return Ok(entries),
        };
        if data_len > (total - path_end - 8) as u64 {
            return Ok(entries);
        }
        let end: usize = path_end + 8 + data_len as usize;
        let path = copy_range(s, pos + 4, path_end);
        let bytes = copy_range(s, path_end + 8, end);
        let ghost before = entry_views(entries@);
        let rel_path = match decode_bytes(path) {
            Some(v) => v,
            None => return Err(BackupError::PathNotUtf8),
        };
        let entry = BackupEntry { rel_path, bytes };
        let ghost seen = entry@;
        entries.push(entry);
        assert(entry_views(entries@) =~= before.push(seen));
        pos = end;
    }
}

/// The bytes that go into the archive: each entry whose path is not known yet.
pub open spec fn new_entry_bytes(
    known: Seq<Seq<char>>,
    entries: Seq<EntryView>,
    n: nat,
) -> Seq<u8>
    decreases n,
{
    if n == 0 {
        Seq::empty()
    } else {
        let before = new_entry_bytes(known, entries, (n - 1) as nat);
        let e = entries[n - 1];
        if lists_path(known_paths(known, entries, (n - 1) as nat), e.rel_path) {
            before
        } else {
            before + entry_bytes(e)
        }
    }
}

/// The paths that are known after the first `n` new entries.
pub open spec fn known_paths(
    known: Seq<Seq<char>>,
    entries: Seq<EntryView>,
    n: nat,
) -> Seq<Seq<char>>
    decreases n,
{
    if n == 0 {
        known
    } else {
        let before = known_paths(known, entries, (n - 1) as nat);
        let path = entries[n - 1].rel_path;
        if lists_path(before, path) {
            before
        } else {
            before.push(path)
        }
    }
}

/// The first `n` new entries without those whose path is known.
pub open spec fn new_entries(
    known: Seq<Seq<char>>,
    entries: Seq<EntryView>,
    n: nat,
) -> Seq<EntryView>
    decreases n,
{
    if n == 0 {
        Seq::empty()
    } else {
        let before = new_entries(known, entries, (n - 1) as nat);
        let e = entries[n - 1];
        if lists_path(known_paths(known, entries, (n - 1) as nat), e.rel_path) {
            before
        } else {
            before.push(e)
        }
    }
}

pub open spec fn entry_paths(v: Seq<EntryView>) -> Seq<Seq<char>> {
    v.map_values(|e: EntryView| e.rel_path)
}

/// The archive after `entries` have been put in: a missing one starts with its
/// header, and what it already has stays.
pub open spec fn archive_with(
    archive: Option<Seq<u8>>,
    game_dir: Seq<char>,
    entries: Seq<EntryView>,
) -> Result<Seq<u8>, BackupError> {
    match archive {
        None => Ok(header_bytes(game_dir) + new_entry_bytes(Seq::empty(), entries, entries.len())),
        Some(s) => match archive_entries(s) {
            Err(e) => Err(e),
            Ok(old_entries) => Ok(
                s + new_entry_bytes(entry_paths(old_entries), entries, entries.len()),
            ),
        },
    }
}

pub open spec fn archive_view(archive: Option<Vec<u8>>) -> Option<Seq<u8>> {
    match archive {
        Some(v) => Some(v@),
        None => None,
    }
}

fn push_entry(out: &mut Vec<u8>, entry: &BackupEntry)
    ensures
        final(out)@ == old(out)@ + entry_bytes(entry@),
{
    let ghost start = out@;
    let path = entry.rel_path.as_str().as_bytes();
    push_u32(out, #[verifier::truncate] (path.len() as u32));
    push_all(out, path);
    push_u64(out, entry.bytes.len() as u64);
    push_all(out, entry.bytes.as_slice());
    assert(out@ =~= start + entry_bytes(entry@));
}

/// The path of the entry about the standalone archive.
pub open spec fn is_meta_path(path: Seq<char>) -> bool {
    same_path(path, "__tiny_poe2smoother/ggpk-meta-v1"@)
}

/// Whether `path` is that of the entry about the standalone archive.
pub fn is_ggpk_meta_path(path: &str) -> (r: bool)
    ensures
        r == is_meta_path(path@),
{
    eq_path(path, "__tiny_poe2smoother/ggpk-meta-v1")
}

/// The bytes that hold a `GgpkBackupMeta`.
pub open spec fn meta_bytes(meta: GgpkBackupMeta) -> Seq<u8> {
    u32_bytes(GGPK_META_MAGIC) + u64_bytes(meta.bundles2_offset_pos) + u64_bytes(
        meta.original_bundles2_offset,
    ) + u64_bytes(meta.appended_start) + u64_bytes(meta.appended_end)
}

/// The `GgpkBackupMeta` that some bytes hold.
pub open spec fn meta_of(s: Seq<u8>) -> Result<GgpkBackupMeta, BackupError> {
    if s.len() < 4 {
        Err(BackupError::Truncated)
    } else if u32_at(s, 0) != GGPK_META_MAGIC {
        Err(BackupError::InvalidMeta)
    } else if s.len() < 36 {
        Err(BackupError::Truncated)
    } else {
        Ok(
            GgpkBackupMeta {
                bundles2_offset_pos: u64_at(s, 4),
                original_bundles2_offset: u64_at(s, 12),
                appended_start: u64_at(s, 20),
                appended_end: u64_at(s, 28),
            },
        )
    }
}

/// The bytes that hold a `GgpkBackupMeta`.
pub fn encode_ggpk_meta(meta: GgpkBackupMeta) -> (r: Vec<u8>)
    ensures
        r@ == meta_bytes(meta),
{
    let mut out: Vec<u8> = Vec::new();
    push_u32(&mut out, GGPK_META_MAGIC);
    push_u64(&mut out, meta.bundles2_offset_pos);
    push_u64(&mut out, meta.original_bundles2_offset);
    push_u64(&mut out, meta.appended_start);
    push_u64(&mut out, meta.appended_end);
    assert(out@ =~= meta_bytes(meta));
    out
}

/// The `GgpkBackupMeta` that some bytes hold.
pub fn decode_ggpk_meta(s: &[u8]) -> (r: Result<GgpkBackupMeta, BackupError>)
    ensures
        r == meta_of(s@),
{
    match read_u32_at(s, 0) {
        Some(magic) => {
            if magic != GGPK_META_MAGIC {
                return Err(BackupError::InvalidMeta);
            }
        },
        None => return Err(BackupError::Truncated),
    }
    match (read_u64_at(s, 4), read_u64_at(s, 12), read_u64_at(s, 20), read_u64_at(s, 28)) {
        (Some(a), Some(b), Some(c), Some(d)) => Ok(
            GgpkBackupMeta {
                bundles2_offset_pos: a,
                original_bundles2_offset: b,
                appended_start: c,
                appended_end: d,
            },
        ),
        _ => Err(BackupError::Truncated),
    }
}

/// What the entries say about the standalone archive, from entry `i` on.
pub open spec fn meta_in(entries: Seq<EntryView>, i: int) -> Result<
    Option<GgpkBackupMeta>,
    BackupError,
>
    decreases entries.len() - i,
{
    if i < 0 || i >= entries.len() {
        Ok(None)
    } else if is_meta_path(entries[i].rel_path) {
        match meta_of(entries[i].bytes) {
            Ok(m) => Ok(Some(m)),
            Err(e) => Err(e),
        }
    } else {
        meta_in(entries, i + 1)
    }
}

/// Finds and decodes the entry about the standalone archive.
pub fn ggpk_backup_meta(entries: &Vec<BackupEntry>) -> (r: Result<
    Option<GgpkBackupMeta>,
    BackupError,
>)
    ensures
        r == meta_in(entry_views(entries@), 0),
{
    let ghost all = entry_views(entries@);
    let n: usize = entries.len();
    let mut i: usize = 0;
    while i < n
        invariant
            i <= n == entries@.len(),
            all == entry_views(entries@),
            meta_in(all, 0) == meta_in(all, i as int),
        decreases n - i,
    {
        assert(all[i as int] == entries@[i as int]@);
        if is_ggpk_meta_path(entries[i].rel_path.as_str()) {
            return match decode_ggpk_meta(entries[i].bytes.as_slice()) {
                Ok(m) => Ok(Some(m)),
                Err(e) => Err(e),
            };
        }
        i = i + 1;
    }
    Ok(None)
}

impl BackupStore {
    /// The archive in the user's data folder, with the bytes that it has there.
    pub fn from_default_location(data_dir: Option<&str>, archive: Option<Vec<u8>>) -> (r: Result<
        BackupStore,
        BackupError,
    >)
        ensures
            match r {
                Ok(store) => data_dir is Some && store.path@ == joined_path(
                    joined_path(data_dir->0@, "tiny-poe2smoother"@),
                    "poe2.bak"@,
                ) && store.archive == archive,
                Err(e) => data_dir is None && e == BackupError::NoDataDir,
            },
    {
        match data_dir {
            Some(base) => {
                let dir = join_path(base, "tiny-poe2smoother");
                Ok(BackupStore { path: join_path(dir.as_str(), "poe2.bak"), archive })
            },
            None => Err(BackupError::NoDataDir),
        }
    }

    /// The archive at `path`, which is not there yet.
    pub fn for_path(path: String) -> (r: BackupStore)
        ensures
            r.path == path,
            r.archive is None,
    {
        BackupStore { path, archive: None }
    }

    /// Where the archive is.
    pub fn path(&self) -> (r: &str)
        ensures
            r@ == self.path@,
    {
        self.path.as_str()
    }

    /// Whether there is an archive.
    pub fn has_backup(&self) -> (r: bool)
        ensures
            r == self.archive is Some,
    {
        match &self.archive {
            Some(_) => true,
            None => false,
        }
    }

    /// Removes the archive. It need not be there.
    pub fn remove(&mut self)
        ensures
            final(self).path == old(self).path,
            final(self).archive is None,
    {
        self.archive = None;
    }

    /// The entries of the archive; none if it is not there.
    pub fn entries(&self) -> (r: Result<Vec<BackupEntry>, BackupError>)
        ensures
            match self.archive {
                None => r is Ok && r->Ok_0@.len() == 0,
                Some(s) => match r {
                    Ok(v) => archive_entries(s@) == Ok::<Seq<EntryView>, BackupError>(
                        entry_views(v@),
                    ),
                    Err(e) => archive_entries(s@) == Err::<Seq<EntryView>, BackupError>(e),
                },
            },
    {
        match &self.archive {
            None => Ok(Vec::new()),
            Some(s) => read_entries(s.as_slice()),
        }
    }

    /// Puts the original bytes of files into the archive, and starts one where
    /// there is none. A path that the archive has keeps its first bytes.
    pub fn ensure_original_bytes(&mut self, game_dir: &str, entries: &Vec<BackupEntry>) -> (r:
        Result<(), BackupError>)
        ensures
            final(self).path == old(self).path,
            match r {
                Ok(_) => final(self).archive is Some && archive_with(
                    archive_view(old(self).archive),
                    game_dir@,
                    entry_views(entries@),
                ) == Ok::<Seq<u8>, BackupError>(final(self).archive->0@),
                Err(e) => *final(self) == *old(self) && archive_with(
                    archive_view(old(self).archive),
                    game_dir@,
                    entry_views(entries@),
                ) == Err::<Seq<u8>, BackupError>(e),
            },
    {
        let mut known: Vec<String> = Vec::new();
        let mut out: Vec<u8> = Vec::new();
        let ghost all = entry_views(entries@);
        let ghost first: Seq<Seq<char>> = Seq::empty();
        assert(texts(known@) =~= first);
        match &self.archive {
            Some(s) => {
                let old_entries = match read_entries(s.as_slice()) {
                    Ok(v) => v,
                    Err(e) => return Err(e),
                };
                let ghost old_views = entry_views(old_entries@);
                let m: usize = old_entries.len();
                let mut j: usize = 0;
                while j < m
                    invariant
                        j <= m == old_entries@.len(),
                        old_views == entry_views(old_entries@),
                        texts(known@) == entry_paths(old_views).take(j as int),
                    decreases m - j,
                {
                    let ghost before = known@;
                    let path = old_entries[j].rel_path.clone();
                    let ghost text = path@;
                    known.push(path);
                    j = j + 1;
                    assert(old_views[j - 1] == old_entries@[j - 1]@);
                    assert(texts(known@) =~= texts(before).push(text));
                    assert(texts(known@) =~= entry_paths(old_views).take(j as int));
                }
                assert(texts(known@) =~= entry_paths(old_views));
                proof {
                    first = entry_paths(old_views);
                }
                push_all(&mut out, s.as_slice());
                assert(out@ =~= s@);
            },
            None => {
                push_u32(&mut out, MAGIC);
                push_u32(&mut out, VERSION);
                let mut manifest = "tiny-poe2smoother v0.1.0 game=".to_owned();
                manifest.append(game_dir);
                let bytes = manifest.as_str().as_bytes();
                push_u32(&mut out, #[verifier::truncate] (bytes.len() as u32));
                push_all(&mut out, bytes);
                assert(out@ =~= header_bytes(game_dir@));
            },
        }
        let ghost base = out@;
        let n: usize = entries.len();
        let mut i: usize = 0;
        assert(out@ =~= base + new_entry_bytes(first, all, 0));
        while i < n
            invariant
                i <= n == entries@.len(),
                all == entry_views(entries@),
                texts(known@) == known_paths(first, all, i as nat),
                out@ == base + new_entry_bytes(first, all, i as nat),
            decreases n - i,
        {
            assert(all[i as int] == entries@[i as int]@);
            let entry = &entries[i];
            if !contains_path(&known, entry.rel_path.as_str()) {
                let ghost before = known@;
                let ghost start = out@;
                let path = entry.rel_path.clone();
                let ghost text = path@;
                known.push(path);
                assert(texts(known@) =~= texts(before).push(text));
                push_entry(&mut out, entry);
                assert(out@ =~= base + new_entry_bytes(first, all, (i + 1) as nat));
            }
            i = i + 1;
        }
        self.archive = Some(out);
        Ok(())
    }

    /// Puts what undoes a patch of the standalone archive into the backup.
    pub fn ensure_ggpk_backup_meta(&mut self, game_dir: &str, meta: GgpkBackupMeta) -> (r: Result<
        (),
        BackupError,
    >)
        ensures
            final(self).path == old(self).path,
            ({
                let entries = seq![
                    EntryView {
                        rel_path: "__tiny_poe2smoother/ggpk-meta-v1"@,
                        bytes: meta_bytes(meta),
                    },
                ];
                match r {
                    Ok(_) => final(self).archive is Some && archive_with(
                        archive_view(old(self).archive),
                        game_dir@,
                        entries,
                    ) == Ok::<Seq<u8>, BackupError>(final(self).archive->0@),
                    Err(e) => *final(self) == *old(self) && archive_with(
                        archive_view(old(self).archive),
                        game_dir@,
                        entries,
                    ) == Err::<Seq<u8>, BackupError>(e),
                }
            }),
    {
        let mut entries: Vec<BackupEntry> = Vec::new();
        entries.push(
            BackupEntry {
                rel_path: "__tiny_poe2smoother/ggpk-meta-v1".to_owned(),
                bytes: encode_ggpk_meta(meta),
            },
        );
        assert(entry_views(entries@) =~= seq![
            EntryView { rel_path: "__tiny_poe2smoother/ggpk-meta-v1"@, bytes: meta_bytes(meta) },
        ]);
        self.ensure_original_bytes(game_dir, &entries)
    }
}

/// One step of a restore, on paths relative to the game folder.
pub enum RestoreStep {
    /// Write the original bytes of a file.
    WriteFile { rel_path: String, bytes: Vec<u8> },
    /// Remove a file, if it is there.
    RemoveFile { rel_path: String },
    /// Remove a folder with all that is in it, if it is there.
    RemoveDir { rel_path: String },
    /// Remove the backup archive.
    RemoveBackup,
}

/// What a `RestoreStep` says.
pub enum StepView {
    WriteFile { rel_path: Seq<char>, bytes: Seq<u8> },
    RemoveFile { rel_path: Seq<char> },
    RemoveDir { rel_path: Seq<char> },
    RemoveBackup,
}

impl View for RestoreStep {
    type V = StepView;

    open spec fn view(&self) -> StepView {
        match *self {
            RestoreStep::WriteFile { rel_path, bytes } => StepView::WriteFile {
                rel_path: rel_path@,
                bytes: bytes@,
            },
            RestoreStep::RemoveFile { rel_path } => StepView::RemoveFile { rel_path: rel_path@ },
            RestoreStep::RemoveDir { rel_path } => StepView::RemoveDir { rel_path: rel_path@ },
            RestoreStep::RemoveBackup => StepView::RemoveBackup,
        }
    }
}

pub open spec fn step_views(v: Seq<RestoreStep>) -> Seq<StepView> {
    v.map_values(|s: RestoreStep| s@)
}

/// What a restore does, and how many files it restores.
pub struct RestorePlan {
    pub steps: Vec<RestoreStep>,
    pub restored: usize,
}

/// The steps for the first `n` entries. The entry about the standalone archive
/// is no file; in the standalone layout the loose index is only an overlay and
/// goes away.
pub open spec fn file_steps(entries: Seq<EntryView>, remove_overlay_index: bool, n: nat) -> Seq<
    StepView,
>
    decreases n,
{
    if n == 0 {
        Seq::empty()
    } else {
        let before = file_steps(entries, remove_overlay_index, (n - 1) as nat);
        let e = entries[n - 1];
        if is_meta_path(e.rel_path) {
            before
        } else if remove_overlay_index && same_path(e.rel_path, "Bundles2/_.index.bin"@) {
            before.push(StepView::RemoveFile { rel_path: e.rel_path })
        } else {
            before.push(StepView::WriteFile { rel_path: e.rel_path, bytes: e.bytes })
        }
    }
}

/// All steps of a restore: the files, then the folder of generated bundles, then
/// the archive itself.
pub open spec fn restore_steps(
    entries: Seq<EntryView>,
    remove_overlay_index: bool,
    has_backup: bool,
) -> Seq<StepView> {
    let files = file_steps(entries, remove_overlay_index, entries.len()).push(
        StepView::RemoveDir { rel_path: "Bundles2/TinyPoe2Smoother"@ },
    );
    if has_backup {
        files.push(StepView::RemoveBackup)
    } else {
        files
    }
}

impl BackupStore {
    /// What restoring `entries` (as `entries` returned them) takes.
    pub fn restore(&self, entries: &Vec<BackupEntry>, remove_overlay_index: bool) -> (r:
        RestorePlan)
        ensures
            step_views(r.steps@) == restore_steps(
                entry_views(entries@),
                remove_overlay_index,
                self.archive is Some,
            ),
            r.restored == file_steps(
                entry_views(entries@),
                remove_overlay_index,
                entries@.len(),
            ).len(),
    {
        let ghost all = entry_views(entries@);
        let mut steps: Vec<RestoreStep> = Vec::new();
        let n: usize = entries.len();
        let mut i: usize = 0;
        assert(step_views(steps@) =~= file_steps(all, remove_overlay_index, 0));
        while i < n
            invariant
                i <= n == entries@.len(),
                all == entry_views(entries@),
                step_views(steps@) == file_steps(all, remove_overlay_index, i as nat),
            decreases n - i,
        {
            assert(all[i as int] == entries@[i as int]@);
            let entry = &entries[i];
            if !is_ggpk_meta_path(entry.rel_path.as_str()) {
                let ghost before = steps@;
                let step = if remove_overlay_index && eq_path(
                    entry.rel_path.as_str(),
                    "Bundles2/_.index.bin",
                ) {
                    RestoreStep::RemoveFile { rel_path: entry.rel_path.clone() }
                } else {
                    RestoreStep::WriteFile {
                        rel_path: entry.rel_path.clone(),
                        bytes: copy_range(entry.bytes.as_slice(), 0, entry.bytes.len()),
                    }
                };
                let ghost view = step@;
                proof {
                    assert(entry.bytes@.subrange(0, entry.bytes@.len() as int) =~= entry.bytes@);
                }
                steps.push(step);
                assert(step_views(steps@) =~= step_views(before).push(view));
            }
            i = i + 1;
        }
        let restored: usize = steps.len();
        let ghost before = steps@;
        steps.push(RestoreStep::RemoveDir { rel_path: "Bundles2/TinyPoe2Smoother".to_owned() });
        assert(step_views(steps@) =~= step_views(before).push(
            StepView::RemoveDir { rel_path: "Bundles2/TinyPoe2Smoother"@ },
        ));
        if self.has_backup() {
            let ghost dirs = steps@;
            steps.push(RestoreStep::RemoveBackup);
            assert(step_views(steps@) =~= step_views(dirs).push(StepView::RemoveBackup));
        }
        RestorePlan { steps, restored }
    }
}

/// A `GgpkBackupMeta` is read back as it was written.
pub proof fn law_meta_round_trip(meta: GgpkBackupMeta)
    ensures
        meta_of(meta_bytes(meta)) == Ok::<GgpkBackupMeta, BackupError>(meta),
{
    lemma_int_bytes();
    let s = meta_bytes(meta);
    assert(s.subrange(0, 4) =~= u32_bytes(GGPK_META_MAGIC));
    assert(s.subrange(4, 12) =~= u64_bytes(meta.bundles2_offset_pos));
    assert(s.subrange(12, 20) =~= u64_bytes(meta.original_bundles2_offset));
    assert(s.subrange(20, 28) =~= u64_bytes(meta.appended_start));
    assert(s.subrange(28, 36) =~= u64_bytes(meta.appended_end));
}

/// Whether complete entries reach from `pos` to the end of the archive.
pub open spec fn complete_from(s: Seq<u8>, pos: int) -> bool
    decreases s.len() - pos,
{
    if pos == s.len() {
        true
    } else {
        match entry_end(s, pos) {
            None => false,
            Some(end) => 0 <= pos < end && vstd::utf8::valid_utf8(entry_parts(s, pos).0)
                && complete_from(s, end),
        }
    }
}

/// Whether the archive consists of a header and complete entries.
pub open spec fn complete_archive(s: Seq<u8>) -> bool {
    entries_start(s) is Ok && entries_start(s)->Ok_0 <= s.len() && complete_from(
        s,
        entries_start(s)->Ok_0,
    )
}

/// Whether the lengths of an entry fit their fields.
pub open spec fn entry_fits(e: EntryView) -> bool {
    vstd::utf8::encode_utf8(e.rel_path).len() <= u32::MAX && e.bytes.len() <= u64::MAX
}

proof fn lemma_same_fields(s: Seq<u8>, t: Seq<u8>, pos: int, n: int)
    requires
        0 <= pos,
        0 <= n,
        pos + n <= s.len(),
    ensures
        (s + t).subrange(pos, pos + n) == s.subrange(pos, pos + n),
{
    assert((s + t).subrange(pos, pos + n) =~= s.subrange(pos, pos + n));
}

proof fn lemma_entry_kept(s: Seq<u8>, t: Seq<u8>, pos: int)
    requires
        0 <= pos,
        entry_end(s, pos) is Some,
    ensures
        entry_end(s + t, pos) == entry_end(s, pos),
        entry_parts(s + t, pos) == entry_parts(s, pos),
{
    lemma_same_fields(s, t, pos, 4);
    let path_end = pos + 4 + u32_at(s, pos);
    lemma_same_fields(s, t, path_end, 8);
    lemma_same_fields(s, t, pos + 4, path_end - pos - 4);
    lemma_same_fields(s, t, path_end + 8, u64_at(s, path_end) as int);
}

/// What is appended to complete entries does not change how they are read.
proof fn lemma_entries_prefix(s: Seq<u8>, t: Seq<u8>, pos: int, before: Seq<EntryView>)
    requires
        0 <= pos <= s.len(),
        complete_from(s, pos),
    ensures
        entries_from(s, pos, before) is Ok,
        entries_from(s + t, pos, before) == entries_from(
            s + t,
            s.len() as int,
            entries_from(s, pos, before)->Ok_0,
        ),
    decreases s.len() - pos,
{
    if pos < s.len() {
        lemma_entry_kept(s, t, pos);
        let end = entry_end(s, pos)->0;
        let (path, bytes) = entry_parts(s, pos);
        lemma_entries_prefix(
            s,
            t,
            end,
            before.push(EntryView { rel_path: vstd::utf8::decode_utf8(path), bytes }),
        );
    } else {
        assert(entry_end(s, pos) is None);
    }
}

proof fn lemma_complete_prefix(s: Seq<u8>, t: Seq<u8>, pos: int)
    requires
        0 <= pos <= s.len(),
        complete_from(s, pos),
        complete_from(s + t, s.len() as int),
    ensures
        complete_from(s + t, pos),
    decreases s.len() - pos,
{
    if pos < s.len() {
        lemma_entry_kept(s, t, pos);
        lemma_complete_prefix(s, t, entry_end(s, pos)->0);
    }
}

proof fn lemma_start_kept(s: Seq<u8>, t: Seq<u8>)
    requires
        entries_start(s) is Ok,
    ensures
        entries_start(s + t) == entries_start(s),
{
    lemma_same_fields(s, t, 0, 4);
    lemma_same_fields(s, t, 4, 4);
    if s.len() >= 12 {
        lemma_same_fields(s, t, 8, 4);
    }
}

/// An appended entry is read back.
proof fn lemma_entry_appended(s: Seq<u8>, e: EntryView, before: Seq<EntryView>)
    requires
        entry_fits(e),
    ensures
        entries_from(s + entry_bytes(e), s.len() as int, before) == Ok::<
            Seq<EntryView>,
            BackupError,
        >(before.push(e)),
        complete_from(s + entry_bytes(e), s.len() as int),
{
    lemma_int_bytes();
    let path = vstd::utf8::encode_utf8(e.rel_path);
    let b = entry_bytes(e);
    let w = s + b;
    let n = s.len() as int;
    assert(w.subrange(n, n + 4) =~= u32_bytes(path.len() as u32));
    assert(u32_at(w, n) == path.len());
    let path_end = n + 4 + path.len();
    assert(w.subrange(path_end, path_end + 8) =~= u64_bytes(e.bytes.len() as u64));
    assert(u64_at(w, path_end) == e.bytes.len());
    assert(entry_end(w, n) == Some(w.len() as int));
    assert(w.subrange(n + 4, path_end) =~= path);
    assert(w.subrange(path_end + 8, path_end + 8 + e.bytes.len()) =~= e.bytes);
    vstd::utf8::encode_utf8_decode_utf8(e.rel_path);
    vstd::utf8::encode_utf8_valid_utf8(e.rel_path);
    assert(entry_end(w, w.len() as int) is None);
    assert(entries_from(w, w.len() as int, before.push(e)) == Ok::<Seq<EntryView>, BackupError>(
        before.push(e),
    ));
    assert(EntryView { rel_path: vstd::utf8::decode_utf8(path), bytes: e.bytes } == e);
    assert(complete_from(w, w.len() as int));
}

proof fn lemma_new_entries_appended(
    s: Seq<u8>,
    known: Seq<Seq<char>>,
    entries: Seq<EntryView>,
    n: nat,
)
    requires
        n <= entries.len(),
        complete_archive(s),
        forall|i: int| 0 <= i < entries.len() ==> entry_fits(#[trigger] entries[i]),
    ensures
        complete_archive(s + new_entry_bytes(known, entries, n)),
        archive_entries(s + new_entry_bytes(known, entries, n)) == Ok::<
            Seq<EntryView>,
            BackupError,
        >(archive_entries(s)->Ok_0 + new_entries(known, entries, n)),
    decreases n,
{
    let start = entries_start(s)->Ok_0;
    lemma_entries_prefix(s, Seq::empty(), start, Seq::empty());
    if n == 0 {
        assert(s + new_entry_bytes(known, entries, 0) =~= s);
        assert(archive_entries(s)->Ok_0 + new_entries(known, entries, 0)
            =~= archive_entries(s)->Ok_0);
    } else {
        let m = (n - 1) as nat;
        lemma_new_entries_appended(s, known, entries, m);
        let e = entries[m as int];
        let w = s + new_entry_bytes(known, entries, m);
        if !lists_path(known_paths(known, entries, m), e.rel_path) {
            let b = entry_bytes(e);
            assert(s + new_entry_bytes(known, entries, n) =~= w + b);
            let read = archive_entries(w)->Ok_0;
            lemma_start_kept(w, b);
            let ws = entries_start(w)->Ok_0;
            lemma_entries_prefix(w, b, ws, Seq::empty());
            lemma_entry_appended(w, e, read);
            lemma_complete_prefix(w, b, ws);
            assert(archive_entries(s)->Ok_0 + new_entries(known, entries, n) =~= read.push(e));
        }
    }
}

/// What is put into a new archive is read back: each path once, with the bytes
/// that came first.
pub proof fn law_new_backup_round_trip(game_dir: Seq<char>, entries: Seq<EntryView>, s: Seq<u8>)
    requires
        archive_with(None, game_dir, entries) == Ok::<Seq<u8>, BackupError>(s),
        vstd::utf8::encode_utf8(manifest_text(game_dir)).len() <= u32::MAX,
        forall|i: int| 0 <= i < entries.len() ==> entry_fits(#[trigger] entries[i]),
    ensures
        complete_archive(s),
        archive_entries(s) == Ok::<Seq<EntryView>, BackupError>(
            new_entries(Seq::empty(), entries, entries.len()),
        ),
{
    lemma_int_bytes();
    let manifest = vstd::utf8::encode_utf8(manifest_text(game_dir));
    let h = header_bytes(game_dir);
    assert(h.subrange(0, 4) =~= u32_bytes(MAGIC));
    assert(h.subrange(4, 8) =~= u32_bytes(VERSION));
    assert(h.subrange(8, 12) =~= u32_bytes(manifest.len() as u32));
    assert(entries_start(h) == Ok::<int, BackupError>(h.len() as int));
    assert(entry_end(h, h.len() as int) is None);
    assert(archive_entries(h) == Ok::<Seq<EntryView>, BackupError>(Seq::empty()));
    assert(complete_archive(h));
    lemma_new_entries_appended(h, Seq::empty(), entries, entries.len());
    assert(Seq::<EntryView>::empty() + new_entries(Seq::empty(), entries, entries.len())
        =~= new_entries(Seq::empty(), entries, entries.len()));
}

/// What is put into an archive of complete entries comes behind what it has,
/// which stays as it was.
pub proof fn law_backup_keeps_first_originals(
    old_archive: Seq<u8>,
    game_dir: Seq<char>,
    entries: Seq<EntryView>,
    s: Seq<u8>,
)
    requires
        complete_archive(old_archive),
        archive_with(Some(old_archive), game_dir, entries) == Ok::<Seq<u8>, BackupError>(s),
        forall|i: int| 0 <= i < entries.len() ==> entry_fits(#[trigger] entries[i]),
    ensures
        complete_archive(s),
        archive_entries(s) == Ok::<Seq<EntryView>, BackupError>(
            archive_entries(old_archive)->Ok_0 + new_entries(
                entry_paths(archive_entries(old_archive)->Ok_0),
                entries,
                entries.len(),
            ),
        ),
{
    lemma_new_entries_appended(
        old_archive,
        entry_paths(archive_entries(old_archive)->Ok_0),
        entries,
        entries.len(),
    );
}

/// An entry that was cut off while it was appended leaves those before it
/// readable.
pub proof fn law_cut_off_entry_keeps_the_others(s: Seq<u8>, tail: Seq<u8>)
    requires
        complete_archive(s),
        entry_end(s + tail, s.len() as int) is None,
    ensures
        archive_entries(s + tail) == archive_entries(s),
{
    let start = entries_start(s)->Ok_0;
    lemma_start_kept(s, tail);
    lemma_entries_prefix(s, tail, start, Seq::empty());
}

} // verus!
