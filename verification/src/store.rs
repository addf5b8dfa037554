//! Names and paths of the bundle storage, and when a cached index is good.

use crate::cache::{
    cache_bytes, cached_index, index_cache_bytes, parse_index_cache, CacheKey, KeyView,
};
use crate::hashing::{fnv1a_of, hash_fnv1a};
use crate::index::{BundleFile, BundleIndex, FileView};
use crate::install::{
    content_path, content_path_of, index_path, index_path_of, join_path, joined_path,
    InstallLayout,
};
use crate::text::{
    char_range, chars_of, ends_with, has_prefix, has_suffix, hex_digits, push_hex, same_text,
    starts_with, string_of,
};
use vstd::prelude::*;
use vstd::utf8::encode_utf8;

verus! {

/// `Bundles2/name.bundle.bin`.
pub open spec fn storage_path_of(bundle_name: Seq<char>) -> Seq<char> {
    "Bundles2/"@ + bundle_name + ".bundle.bin"@
}

/// Where a bundle is stored, relative to the game folder.
pub fn storage_bundle_path(bundle_name: &str) -> (r: String)
    ensures
        r@ == storage_path_of(bundle_name@),
{
    let mut r = "Bundles2/".to_owned();
    r.append(bundle_name);
    r.append(".bundle.bin");
    r
}

/// The name of what a cached index was read from: the loose index, or the index
/// inside of the archive. The case of the path is kept.
pub open spec fn cache_source_of(game_dir: Seq<char>, layout: InstallLayout) -> Seq<char> {
    match layout {
        InstallLayout::LooseBundles => index_path_of(game_dir),
        InstallLayout::ContentGgpk => content_path_of(game_dir) + "::Bundles2/_.index.bin"@,
    }
}

/// The name of what a cached index was read from. `game_dir` is in its normal
/// form, so that one install has one name.
pub fn cache_source(game_dir: &str, layout: InstallLayout) -> (r: String)
    ensures
        r@ == cache_source_of(game_dir@, layout),
{
    match layout {
        InstallLayout::LooseBundles => index_path(game_dir),
        InstallLayout::ContentGgpk => {
            let mut r = content_path(game_dir);
            r.append("::Bundles2/_.index.bin");
            r
        },
    }
}

/// The name of the file that holds the cached index of a source.
pub open spec fn cache_file_name_of(source: Seq<char>) -> Seq<char> {
    "index-cache-v3-"@ + hex_digits(fnv1a_of(encode_utf8(source)) as nat, 16) + ".bin"@
}

/// The name of the file that holds the cached index of a source.
pub fn cache_file_name(source: &str) -> (r: String)
    ensures
        r@ == cache_file_name_of(source@),
{
    let tag: u64 = hash_fnv1a(source.as_bytes());
    let mut digits: Vec<char> = Vec::new();
    push_hex(&mut digits, tag, 16);
    let hex = string_of(digits.as_slice());
    let mut r = "index-cache-v3-".to_owned();
    r.append(hex.as_str());
    r.append(".bin");
    assert(r@ =~= cache_file_name_of(source@));
    r
}

/// Whether a text is made of sixteen digits of a hexadecimal number in lower
/// case.
pub open spec fn is_cache_tag(s: Seq<char>) -> bool {
    &&& s.len() == 16
    &&& forall|i: int|
        0 <= i < s.len() ==> '0' <= #[trigger] s[i] <= '9' || 'a' <= s[i] <= 'f'
}

/// Whether `name` is `prefix`, a tag and `.bin`.
pub open spec fn is_tagged(name: Seq<char>, prefix: Seq<char>) -> bool {
    &&& starts_with(name, prefix)
    &&& name.len() >= prefix.len() + 4
    &&& ends_with(name, ".bin"@)
    &&& is_cache_tag(name.subrange(prefix.len() as int, name.len() - 4))
}

/// Whether a file is the cache of an earlier version.
pub open spec fn is_legacy_name(name: Seq<char>) -> bool {
    ||| name == "index-cache.bin"@
    ||| is_tagged(name, "index-cache-"@)
    ||| is_tagged(name, "index-cache-v2-"@)
}

fn has_tag(name: &[char], prefix: &str) -> (r: bool)
    ensures
        r == is_tagged(name@, prefix@),
{
    let p = chars_of(prefix);
    let suffix = chars_of(".bin");
    proof {
        reveal_strlit(".bin");
    }
    if !has_prefix(name, p.as_slice()) || !has_suffix(name, suffix.as_slice()) || name.len()
        - p.len() < 4 {
        return false;
    }
    let tag = char_range(name, p.len(), name.len() - 4);
    if tag.len() != 16 {
        return false;
    }
    let mut i: usize = 0;
    while i < 16
        invariant
            i <= 16 == tag@.len(),
            tag@ == name@.subrange(p@.len() as int, name@.len() - 4),
            p@ == prefix@,
            forall|k: int|
                0 <= k < i ==> '0' <= #[trigger] tag@[k] <= '9' || 'a' <= tag@[k] <= 'f',
        decreases 16 - i,
    {
        let c: char = tag[i];
        if !(('0' <= c && c <= '9') || ('a' <= c && c <= 'f')) {
            assert(!is_cache_tag(tag@));
            return false;
        }
        i = i + 1;
    }
    true
}

/// Whether a file is the cache of an earlier version. Everything else stays.
pub fn is_legacy_cache_name(name: &str) -> (r: bool)
    ensures
        r == is_legacy_name(name@),
{
    let chars = chars_of(name);
    same_text(name, "index-cache.bin") || has_tag(chars.as_slice(), "index-cache-") || has_tag(
        chars.as_slice(),
        "index-cache-v2-",
    )
}

/// Whether the cache folder has to be looked through for caches of earlier
/// versions. A marker says that this was done, and a folder that cannot be had is
/// left for another time.
pub fn sweep_is_due(marker_exists: bool, folder_ready: bool) -> (r: bool)
    ensures
        r == (!marker_exists && folder_ready),
{
    !marker_exists && folder_ready
}

/// What was found of one entry of the cache folder.
pub enum SweepEntry {
    /// The entry cannot be read.
    Unreadable,
    /// The name of the entry; whether it is a file, if that can be told.
    Named { name: String, is_file: Option<bool> },
}

/// What to do with an entry of the cache folder.
#[derive(Debug, Clone, Copy, PartialEq, Eq, Structural)]
pub enum SweepAction {
    /// Leave it.
    Keep,
    /// Remove it.
    Remove,
    /// Leave it, and come back another time.
    Retry,
}

pub open spec fn sweep_action_of(entry: SweepEntry) -> SweepAction {
    match entry {
        SweepEntry::Unreadable => SweepAction::Retry,
        SweepEntry::Named { name, is_file } => if !is_legacy_name(name@) {
            SweepAction::Keep
        } else {
            match is_file {
                None => SweepAction::Retry,
                Some(true) => SweepAction::Remove,
                Some(false) => SweepAction::Keep,
            }
        },
    }
}

/// What to do with an entry of the cache folder.
pub fn sweep_action(entry: &SweepEntry) -> (r: SweepAction)
    ensures
        r == sweep_action_of(*entry),
{
    match entry {
        SweepEntry::Unreadable => SweepAction::Retry,
        SweepEntry::Named { name, is_file } => {
            if !is_legacy_cache_name(name.as_str()) {
                SweepAction::Keep
            } else {
                match is_file {
                    None => SweepAction::Retry,
                    Some(file) => if *file {
                        SweepAction::Remove
                    } else {
                        SweepAction::Keep
                    },
                }
            }
        },
    }
}

/// What came of an entry of the cache folder.
#[derive(Debug, Clone, Copy, PartialEq, Eq, Structural)]
pub struct SweepOutcome {
    pub action: SweepAction,
    /// Whether a removal went through, or there was nothing left to remove.
    pub removed: bool,
}

pub open spec fn outcome_done(o: SweepOutcome) -> bool {
    match o.action {
        SweepAction::Keep => true,
        SweepAction::Remove => o.removed,
        SweepAction::Retry => false,
    }
}

/// Whether the folder holds no cache of an earlier version any more, so that it
/// need not be looked through again.
pub fn sweep_is_complete(outcomes: &Vec<SweepOutcome>) -> (r: bool)
    ensures
        r == forall|i: int| 0 <= i < outcomes@.len() ==> outcome_done(#[trigger] outcomes@[i]),
{
    let n: usize = outcomes.len();
    let mut i: usize = 0;
    while i < n
        invariant
            i <= n == outcomes@.len(),
            forall|k: int| 0 <= k < i ==> outcome_done(#[trigger] outcomes@[k]),
        decreases n - i,
    {
        let done: bool = match outcomes[i].action {
            SweepAction::Keep => true,
            SweepAction::Remove => outcomes[i].removed,
            SweepAction::Retry => false,
        };
        if !done {
            assert(!outcome_done(outcomes@[i as int]));
            return false;
        }
        i = i + 1;
    }
    true
}

pub open spec fn key_view(key: Option<CacheKey>) -> Option<KeyView> {
    match key {
        Some(k) => Some(k@),
        None => None,
    }
}

fn same_key(a: &CacheKey, b: &CacheKey) -> (r: bool)
    ensures
        r == (a@ == b@),
{
    a.source == b.source && a.size == b.size && a.mtime == b.mtime
}

/// Whether two keys are the same. A source without a key is the same as another
/// without one.
pub fn same_source(a: &Option<CacheKey>, b: &Option<CacheKey>) -> (r: bool)
    ensures
        r == (key_view(*a) == key_view(*b)),
{
    match (a, b) {
        (Some(x), Some(y)) => same_key(x, y),
        (None, None) => true,
        _ => false,
    }
}

/// The part of opening an index in which the game's files changed.
#[derive(Debug, Clone, Copy, PartialEq, Eq, Structural)]
pub enum OpenPhase {
    Mapping,
    Loading,
    Building,
    Caching,
}

/// The game's files changed while the index was opened.
#[derive(Debug, Clone, Copy, PartialEq, Eq, Structural)]
pub struct SourceChanged {
    pub phase: OpenPhase,
}

/// Goes on only if the game's files are the same as before.
pub fn ensure_source_unchanged(
    current: &Option<CacheKey>,
    expected: &Option<CacheKey>,
    phase: OpenPhase,
) -> (r: Result<(), SourceChanged>)
    ensures
        match r {
            Ok(_) => key_view(*current) == key_view(*expected),
            Err(e) => key_view(*current) != key_view(*expected) && e.phase == phase,
        },
{
    if same_source(current, expected) {
        Ok(())
    } else {
        Err(SourceChanged { phase })
    }
}

/// The cached index, if the cache belongs to the game's files and those did not
/// change while it was read.
pub open spec fn usable_cache(
    before: Option<KeyView>,
    data: Option<Seq<u8>>,
    after: Option<KeyView>,
) -> Option<crate::index::IndexView> {
    match (before, data) {
        (Some(key), Some(s)) => if after == before {
            cached_index(s, key)
        } else {
            None
        },
        _ => None,
    }
}

/// The cached index, given the bytes of the cache and the keys of the game's
/// files before and after they were read.
pub fn read_cache(
    before: &Option<CacheKey>,
    data: Option<&[u8]>,
    after: &Option<CacheKey>,
) -> (r: Option<BundleIndex>)
    ensures
        ({
            let bytes = match data {
                Some(s) => Some(s@),
                None => None,
            };
            let expected = usable_cache(key_view(*before), bytes, key_view(*after));
            match r {
                Some(index) => expected == Some(index@),
                None => expected is None,
            }
        }),
{
    match (before, data) {
        (Some(key), Some(s)) => {
            match parse_index_cache(s, key) {
                Some(index) => {
                    if same_source(before, after) {
                        Some(index)
                    } else {
                        None
                    }
                },
                None => None,
            }
        },
        _ => None,
    }
}

/// A cache that has been put together and not been looked at again: putting it
/// together takes time, in which the game's files may change.
pub struct UnpublishedCache {
    key: CacheKey,
    data: Vec<u8>,
}

impl View for UnpublishedCache {
    type V = (KeyView, Seq<u8>);

    closed spec fn view(&self) -> (KeyView, Seq<u8>) {
        (self.key@, self.data@)
    }
}

/// Puts the cache of an index together, if the game's files still are those that
/// it was read from. `before` is their key now.
pub fn write_cache(
    index: &BundleIndex,
    source_key: &CacheKey,
    before: &Option<CacheKey>,
) -> (r: Option<UnpublishedCache>)
    requires
        forall|i: int|
            0 <= i < index.file_order@.len() ==> index.files@.contains_key(
                #[trigger] index.file_order@[i],
            ),
    ensures
        match r {
            Some(cache) => key_view(*before) == Some(source_key@) && cache@ == (
                source_key@,
                cache_bytes(index@, source_key@),
            ),
            None => key_view(*before) != Some(source_key@),
        },
{
    let unchanged: bool = match before {
        Some(a) => same_key(a, source_key),
        None => false,
    };
    if !unchanged {
        return None;
    }
    let data = index_cache_bytes(index, source_key);
    let key = CacheKey {
        source: source_key.source.clone(),
        size: source_key.size,
        mtime: source_key.mtime,
    };
    Some(UnpublishedCache { key, data })
}

impl UnpublishedCache {
    /// The bytes of the cache, if the game's files still are the same. `after` is
    /// their key now.
    pub fn publish(self, after: &Option<CacheKey>) -> (r: Option<Vec<u8>>)
        ensures
            match r {
                Some(data) => key_view(*after) == Some(self@.0) && data@ == self@.1,
                None => key_view(*after) != Some(self@.0),
            },
    {
        let unchanged: bool = match after {
            Some(a) => same_key(a, &self.key),
            None => false,
        };
        if unchanged {
            Some(self.data)
        } else {
            None
        }
    }
}

/// A step of replacing a cache file: writing a file beside it, and putting that
/// in its place.
#[derive(Debug, Clone, Copy, PartialEq, Eq, Structural)]
pub enum CacheStep {
    WriteBeside,
    PutInPlace,
}

/// What follows a step of replacing a cache file.
#[derive(Debug, Clone, Copy, PartialEq, Eq, Structural)]
pub enum AfterCacheStep {
    PutInPlace,
    Done,
    /// The file beside it is removed; the old cache file, if any, stays.
    RemoveBeside,
}

/// What follows a step of replacing a cache file. A file that is not whole is
/// never put in its place, and none is left beside it.
pub fn after_cache_step(step: CacheStep, done: bool) -> (r: AfterCacheStep)
    ensures
        r == (match (step, done) {
            (CacheStep::WriteBeside, true) => AfterCacheStep::PutInPlace,
            (CacheStep::PutInPlace, true) => AfterCacheStep::Done,
            (_, false) => AfterCacheStep::RemoveBeside,
        }),
{
    if !done {
        return AfterCacheStep::RemoveBeside;
    }
    match step {
        CacheStep::WriteBeside => AfterCacheStep::PutInPlace,
        CacheStep::PutInPlace => AfterCacheStep::Done,
    }
}

/// Where the game's bundles are.
pub struct BundleStore {
    pub game_dir: String,
    pub bundles_dir: String,
    pub index_path: String,
    pub layout: InstallLayout,
    pub content_path: String,
    pub cache_source: String,
    pub cache_dir: String,
}

impl BundleStore {
    /// Whether the paths of the store belong to its game folder and layout.
    pub open spec fn wf(&self) -> bool {
        &&& self.bundles_dir@ == joined_path(self.game_dir@, "Bundles2"@)
        &&& self.index_path@ == index_path_of(self.game_dir@)
        &&& self.content_path@ == content_path_of(self.game_dir@)
    }

    /// The store of a game folder. `normal_game_dir` is the folder in its normal
    /// form, which only names the cache; `layout` is `None` where the folder
    /// holds no game.
    pub fn new_with_cache_dir(
        game_dir: String,
        normal_game_dir: &str,
        layout: Option<InstallLayout>,
        cache_dir: String,
    ) -> (r: BundleStore)
        ensures
            r.wf(),
            r.game_dir == game_dir,
            r.cache_dir == cache_dir,
            r.layout == (match layout {
                Some(l) => l,
                None => InstallLayout::LooseBundles,
            }),
            r.cache_source@ == cache_source_of(normal_game_dir@, r.layout),
    {
        let layout = match layout {
            Some(l) => l,
            None => InstallLayout::LooseBundles,
        };
        let bundles_dir = join_path(game_dir.as_str(), "Bundles2");
        let index = join_path(bundles_dir.as_str(), "_.index.bin");
        let content = content_path(game_dir.as_str());
        BundleStore {
            game_dir,
            bundles_dir,
            index_path: index,
            layout,
            content_path: content,
            cache_source: cache_source(normal_game_dir, layout),
            cache_dir,
        }
    }

    /// The file that holds the cached index. Each install has its own.
    pub fn cache_path(&self) -> (r: String)
        ensures
            r@ == joined_path(self.cache_dir@, cache_file_name_of(self.cache_source@)),
    {
        let name = cache_file_name(self.cache_source.as_str());
        join_path(self.cache_dir.as_str(), name.as_str())
    }

    /// Where the index is, as it is shown.
    pub fn index_display_path(&self) -> (r: String)
        ensures
            r@ == (match self.layout {
                InstallLayout::ContentGgpk => self.content_path@ + "::Bundles2/_.index.bin"@,
                InstallLayout::LooseBundles => self.index_path@,
            }),
    {
        match self.layout {
            InstallLayout::ContentGgpk => {
                let mut r = self.content_path.clone();
                r.append("::Bundles2/_.index.bin");
                r
            },
            InstallLayout::LooseBundles => self.index_path.clone(),
        }
    }

    /// The file of a bundle in the loose layout.
    pub fn bundle_path(&self, bundle_name: &str) -> (r: String)
        ensures
            r@ == joined_path(self.bundles_dir@, bundle_name@ + ".bundle.bin"@),
    {
        let mut name = bundle_name.to_owned();
        name.append(".bundle.bin");
        join_path(self.bundles_dir.as_str(), name.as_str())
    }

    /// Where a bundle is, as it is shown.
    pub fn bundle_display_path(&self, bundle_name: &str) -> (r: String)
        ensures
            r@ == (match self.layout {
                InstallLayout::ContentGgpk => self.content_path@ + "::"@ + storage_path_of(
                    bundle_name@,
                ),
                InstallLayout::LooseBundles => joined_path(
                    self.bundles_dir@,
                    bundle_name@ + ".bundle.bin"@,
                ),
            }),
    {
        match self.layout {
            InstallLayout::ContentGgpk => {
                let mut r = self.content_path.clone();
                r.append("::");
                let path = storage_bundle_path(bundle_name);
                r.append(path.as_str());
                r
            },
            InstallLayout::LooseBundles => self.bundle_path(bundle_name),
        }
    }

    /// Whether the cache key is taken of the archive (`Some(true)`), of the loose
    /// index (`Some(false)`), or of nothing, where that index is not there.
    pub fn cache_key_source(&self, index_exists: bool) -> (r: Option<bool>)
        ensures
            r == (match self.layout {
                InstallLayout::ContentGgpk => Some(true),
                InstallLayout::LooseBundles => if index_exists {
                    Some(false)
                } else {
                    None
                },
            }),
    {
        match self.layout {
            InstallLayout::ContentGgpk => Some(true),
            InstallLayout::LooseBundles => if index_exists {
                Some(false)
            } else {
                None
            },
        }
    }
}

/// Files that lie in the same bundle.
pub struct FileGroup {
    pub bundle_index: u32,
    pub files: Vec<BundleFile>,
}

pub open spec fn file_seq(v: Seq<BundleFile>) -> Seq<FileView> {
    v.map_values(|f: BundleFile| f@)
}

/// The files among the first `n` that lie in bundle `b`.
pub open spec fn in_bundle(files: Seq<FileView>, b: u32, n: nat) -> Seq<FileView>
    decreases n,
{
    if n == 0 {
        Seq::empty()
    } else {
        let before = in_bundle(files, b, (n - 1) as nat);
        if files[n - 1].bundle_index == b {
            before.push(files[n - 1])
        } else {
            before
        }
    }
}

/// Whether the groups hold the first `n` files, one group for each bundle, each
/// with its files in order.
pub open spec fn grouped(groups: Seq<FileGroup>, files: Seq<FileView>, n: nat) -> bool {
    &&& forall|i: int|
        0 <= i < groups.len() ==> file_seq((#[trigger] groups[i]).files@) == in_bundle(
            files,
            groups[i].bundle_index,
            n,
        ) && groups[i].files@.len() > 0
    &&& forall|i: int, j: int|
        0 <= i < j < groups.len() ==> (#[trigger] groups[i]).bundle_index != (
        #[trigger] groups[j]).bundle_index
    &&& forall|k: int|
        0 <= k < n ==> exists|i: int|
            0 <= i < groups.len() && (#[trigger] groups[i]).bundle_index == (
            #[trigger] files[k]).bundle_index
}

proof fn lemma_in_bundle_empty(files: Seq<FileView>, b: u32, n: nat)
    requires
        n <= files.len(),
        forall|k: int| 0 <= k < n ==> (#[trigger] files[k]).bundle_index != b,
    ensures
        in_bundle(files, b, n).len() == 0,
    decreases n,
{
    if n > 0 {
        lemma_in_bundle_empty(files, b, (n - 1) as nat);
    }
}

/// Sorts files into groups that lie in the same bundle, so that each bundle is
/// read once.
pub fn group_by_bundle(files: &Vec<BundleFile>) -> (r: Vec<FileGroup>)
    ensures
        grouped(r@, file_seq(files@), files@.len()),
{
    let ghost views = file_seq(files@);
    let n: usize = files.len();
    let mut groups: Vec<FileGroup> = Vec::new();
    let mut k: usize = 0;
    while k < n
        invariant
            k <= n == files@.len(),
            views == file_seq(files@),
            grouped(groups@, views, k as nat),
        decreases n - k,
    {
        let b: u32 = files[k].bundle_index;
        assert(views[k as int] == files@[k as int]@);
        let m: usize = groups.len();
        let mut i: usize = 0;
        while i < m && groups[i].bundle_index != b
            invariant
                i <= m == groups@.len(),
                forall|j: int| 0 <= j < i ==> (#[trigger] groups@[j]).bundle_index != b,
            decreases m - i,
        {
            i = i + 1;
        }
        let file = files[k].clone();
        let ghost before = groups@;
        if i < m {
            let mut list: Vec<BundleFile> = Vec::new();
            let mut group = FileGroup { bundle_index: b, files: list };
            std::mem::swap(&mut group, &mut groups[i]);
            let ghost had = group.files@;
            group.files.push(file);
            proof {
                assert(file_seq(group.files@) =~= file_seq(had).push(views[k as int]));
            }
            groups[i] = group;
            proof {
                assert(groups@ =~= before.update(i as int, group));
                assert forall|j: int| 0 <= j < groups@.len() implies file_seq(
                    (#[trigger] groups@[j]).files@,
                ) == in_bundle(views, groups@[j].bundle_index, (k + 1) as nat)
                    && groups@[j].files@.len() > 0 by {
                    assert(before[j].bundle_index == groups@[j].bundle_index);
                    if j != i {
                        assert(before[j].bundle_index != before[i as int].bundle_index);
                    }
                }
                assert forall|x: int| 0 <= x < k + 1 implies exists|j: int|
                    0 <= j < groups@.len() && (#[trigger] groups@[j]).bundle_index == (
                    #[trigger] views[x]).bundle_index by {
                    if x == k {
                        assert(groups@[i as int].bundle_index == views[x].bundle_index);
                    } else {
                        let j = choose|j: int|
                            0 <= j < before.len() && (#[trigger] before[j]).bundle_index
                                == views[x].bundle_index;
                        assert(groups@[j].bundle_index == views[x].bundle_index);
                    }
                }
            }
        } else {
            let mut list: Vec<BundleFile> = Vec::new();
            list.push(file);
            let group = FileGroup { bundle_index: b, files: list };
            groups.push(group);
            proof {
                assert forall|x: int| 0 <= x < k implies (#[trigger] views[x]).bundle_index
                    != b by {
                    let j = choose|j: int|
                        0 <= j < before.len() && (#[trigger] before[j]).bundle_index
                            == views[x].bundle_index;
                    assert(before[j].bundle_index != b);
                }
                lemma_in_bundle_empty(views, b, k as nat);
                assert(in_bundle(views, b, (k + 1) as nat) =~= seq![views[k as int]]);
                assert(file_seq(list@) =~= seq![views[k as int]]);
                assert forall|j: int| 0 <= j < groups@.len() implies file_seq(
                    (#[trigger] groups@[j]).files@,
                ) == in_bundle(views, groups@[j].bundle_index, (k + 1) as nat)
                    && groups@[j].files@.len() > 0 by {
                    if j < before.len() {
                        assert(groups@[j] == before[j]);
                        assert(before[j].bundle_index != b);
                    }
                }
                assert forall|x: int| 0 <= x < k + 1 implies exists|j: int|
                    0 <= j < groups@.len() && (#[trigger] groups@[j]).bundle_index == (
                    #[trigger] views[x]).bundle_index by {
                    if x == k {
                        assert(groups@[before.len() as int].bundle_index == views[x].bundle_index);
                    } else {
                        let j = choose|j: int|
                            0 <= j < before.len() && (#[trigger] before[j]).bundle_index
                                == views[x].bundle_index;
                        assert(groups@[j].bundle_index == views[x].bundle_index);
                    }
                }
            }
        }
        k = k + 1;
    }
    groups
}

/// The spans of some files in their bundle.
pub fn spans_of(files: &Vec<BundleFile>) -> (r: Vec<(u32, u32)>)
    ensures
        r@ == files@.map_values(|f: BundleFile| (f.offset, f.size)),
{
    let n: usize = files.len();
    let mut out: Vec<(u32, u32)> = Vec::new();
    let mut i: usize = 0;
    while i < n
        invariant
            i <= n == files@.len(),
            out@ == files@.map_values(|f: BundleFile| (f.offset, f.size)).take(i as int),
        decreases n - i,
    {
        out.push((files[i].offset, files[i].size));
        i = i + 1;
        assert(out@ =~= files@.map_values(|f: BundleFile| (f.offset, f.size)).take(i as int));
    }
    assert(out@ =~= files@.map_values(|f: BundleFile| (f.offset, f.size)));
    out
}

} // verus!
