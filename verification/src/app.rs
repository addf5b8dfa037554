//! What the application decides: which patches are selected, whether they may be
//! applied, and what applying and restoring take.

use crate::index::{file_of, has_bundle_with_prefix, normalize_chars, normalized, BundleIndex,
    BundleView, IndexView};
use crate::install::InstallLayout;
use crate::index_update::{custom_name, with_bundle};
use crate::patch_set::PatchChange;
use crate::patches::{
    all_presets, every_patch, parse_patch, parse_preset, parsed_patch, patch_ids, patch_label,
    preset_list, preset_named, preset_views, unique_patches, uniques, PatchId, PresetView,
};
use crate::replacements::{bundle_prefix_of, edits_applied, replaced_files};
use crate::blocks::str_views;
use crate::text::{
    char_range, chars_of, contains_text, decode_bytes, has_prefix, has_suffix, has_text,
    index_of_char, lemma_index_of_char, lower_all, lower_chars, position_of_char, starts_with,
    ends_with, string_of, texts,
};
use crate::utf16::{byte_units, bytes_to_units, decode_units, utf16_text};
use vstd::prelude::*;
use vstd::utf8::{decode_utf8, valid_utf8};

verus! {

/// The state of the game: whether its index is patched, and whether there is a
/// backup.
#[derive(Debug, Clone, Copy, PartialEq, Eq, Structural)]
pub enum PatchState {
    Clean,
    Patched,
    StaleBackup,
    PatchedMissingBackup,
}

impl PatchState {
    /// Whether the index is patched.
    pub fn is_currently_patched(self) -> (r: bool)
        ensures
            r == (self is Patched || self is PatchedMissingBackup),
    {
        match self {
            PatchState::Patched | PatchState::PatchedMissingBackup => true,
            _ => false,
        }
    }

    /// Whether the game can be restored.
    pub fn can_restore(self) -> (r: bool)
        ensures
            r == (self is Patched),
    {
        match self {
            PatchState::Patched => true,
            _ => false,
        }
    }

    /// Whether there is a backup that nothing needs.
    pub fn has_stale_backup(self) -> (r: bool)
        ensures
            r == (self is StaleBackup),
    {
        match self {
            PatchState::StaleBackup => true,
            _ => false,
        }
    }
}

pub open spec fn state_of(has_backup: bool, patched: bool) -> PatchState {
    if patched {
        if has_backup {
            PatchState::Patched
        } else {
            PatchState::PatchedMissingBackup
        }
    } else {
        if has_backup {
            PatchState::StaleBackup
        } else {
            PatchState::Clean
        }
    }
}

/// The state of the game.
pub fn classify_patch_state(has_backup: bool, index_is_patched: bool) -> (r: PatchState)
    ensures
        r == state_of(has_backup, index_is_patched),
{
    match (has_backup, index_is_patched) {
        (false, false) => PatchState::Clean,
        (true, true) => PatchState::Patched,
        (true, false) => PatchState::StaleBackup,
        (false, true) => PatchState::PatchedMissingBackup,
    }
}

/// Whether an index has bundles of ours or of another patcher.
pub open spec fn patched_index(bundles: Seq<BundleView>) -> bool {
    has_bundle_with_prefix(bundles, "TinyPoe2Smoother/"@) || has_bundle_with_prefix(
        bundles,
        "TinyPoe2Smoother_"@,
    ) || has_bundle_with_prefix(bundles, "LibGGPK3/"@)
}

/// Whether an index is patched.
pub fn index_is_patched(index: &BundleIndex) -> (r: bool)
    ensures
        r == patched_index(index@.bundles),
{
    index.has_bundle_prefix("TinyPoe2Smoother/") || index.has_bundle_prefix("TinyPoe2Smoother_")
        || index.has_bundle_prefix("LibGGPK3/")
}

/// Why patches may not be applied.
#[derive(Debug, Clone, Copy, PartialEq, Eq, Structural)]
pub enum ApplyBlocked {
    AlreadyPatched,
    PatchedMissingBackup,
}

impl ApplyBlocked {
    /// What the error says.
    pub open spec fn text(self, backup_path: Seq<char>) -> Seq<char> {
        match self {
            ApplyBlocked::AlreadyPatched =>
                "game is already patched;\nrestore before applying a different patch selection\nBackup: "@
                + backup_path,
            ApplyBlocked::PatchedMissingBackup =>
                "game index is already patched by tiny-poe2smoother, but no backup was found;\nverify game files with Steam or the standalone launcher before applying again"@,
        }
    }

    /// What the error says.
    pub fn message(self, backup_path: &str) -> (r: String)
        ensures
            r@ == self.text(backup_path@),
    {
        match self {
            ApplyBlocked::AlreadyPatched => {
                let mut r = "game is already patched;\nrestore before applying a different patch selection\nBackup: ".to_owned();
                r.append(backup_path);
                r
            },
            ApplyBlocked::PatchedMissingBackup =>
                "game index is already patched by tiny-poe2smoother, but no backup was found;\nverify game files with Steam or the standalone launcher before applying again".to_owned(),
        }
    }
}

/// Patches are applied only to an index that is not patched.
pub fn ensure_can_apply(state: PatchState) -> (r: Result<(), ApplyBlocked>)
    ensures
        match r {
            Ok(_) => state is Clean || state is StaleBackup,
            Err(ApplyBlocked::AlreadyPatched) => state is Patched,
            Err(ApplyBlocked::PatchedMissingBackup) => state is PatchedMissingBackup,
        },
{
    match state {
        PatchState::Clean | PatchState::StaleBackup => Ok(()),
        PatchState::Patched => Err(ApplyBlocked::AlreadyPatched),
        PatchState::PatchedMissingBackup => Err(ApplyBlocked::PatchedMissingBackup),
    }
}

/// The state of the game in words.
pub fn patch_state_label(state: PatchState) -> (r: &'static str)
    ensures
        r@ == (match state {
            PatchState::Clean => "not patched"@,
            PatchState::Patched => "patched"@,
            PatchState::StaleBackup => "not patched (obsolete backup found)"@,
            PatchState::PatchedMissingBackup => "patched (backup missing)"@,
        }),
{
    match state {
        PatchState::Clean => "not patched",
        PatchState::Patched => "patched",
        PatchState::StaleBackup => "not patched (obsolete backup found)",
        PatchState::PatchedMissingBackup => "patched (backup missing)",
    }
}

/// The state of the backup in words.
pub fn backup_label(state: PatchState) -> (r: &'static str)
    ensures
        r@ == (match state {
            PatchState::Clean => "none"@,
            PatchState::Patched => "present"@,
            PatchState::StaleBackup => "obsolete"@,
            PatchState::PatchedMissingBackup => "missing"@,
        }),
{
    match state {
        PatchState::Clean => "none",
        PatchState::Patched => "present",
        PatchState::StaleBackup => "obsolete",
        PatchState::PatchedMissingBackup => "missing",
    }
}

/// What was selected, by name.
#[derive(Debug)]
pub struct PatchSelection {
    pub patches: Vec<String>,
    pub presets: Vec<String>,
    pub all: bool,
}

impl Default for PatchSelection {
    fn default() -> (r: PatchSelection)
        ensures
            r.patches@.len() == 0,
            r.presets@.len() == 0,
            !r.all,
    {
        PatchSelection { patches: Vec::new(), presets: Vec::new(), all: false }
    }
}

/// Why a selection does not stand for patches.
#[derive(Debug)]
pub enum SelectionError {
    UnknownPreset(String),
    UnknownPatch(String),
    NothingSelected,
}

/// What is wrong with a selection. The number is that of the name.
pub enum SelectionFault {
    Preset(int),
    Patch(int),
    Nothing,
}

impl SelectionError {
    /// What the error says.
    pub fn message(&self) -> (r: String)
        ensures
            r@ == (match *self {
                SelectionError::UnknownPreset(name) => "unknown preset: "@ + name@,
                SelectionError::UnknownPatch(name) => "unknown patch: "@ + name@,
                SelectionError::NothingSelected =>
                    "select at least one --patch/--preset or use --all"@,
            }),
    {
        match self {
            SelectionError::UnknownPreset(name) => {
                let mut r = "unknown preset: ".to_owned();
                r.append(name.as_str());
                r
            },
            SelectionError::UnknownPatch(name) => {
                let mut r = "unknown patch: ".to_owned();
                r.append(name.as_str());
                r
            },
            SelectionError::NothingSelected =>
                "select at least one --patch/--preset or use --all".to_owned(),
        }
    }
}

/// The patches of the first `n` presets.
pub open spec fn preset_patches(names: Seq<Seq<char>>, n: nat) -> Result<Seq<PatchId>, int>
    decreases n,
{
    if n == 0 {
        Ok(Seq::empty())
    } else {
        match preset_patches(names, (n - 1) as nat) {
            Err(i) => Err(i),
            Ok(before) => match preset_named(names[n - 1], 0) {
                None => Err(n - 1),
                Some(preset) => Ok(before + preset.patches),
            },
        }
    }
}

/// The first `n` patches.
pub open spec fn named_patches(names: Seq<Seq<char>>, n: nat) -> Result<Seq<PatchId>, int>
    decreases n,
{
    if n == 0 {
        Ok(Seq::empty())
    } else {
        match named_patches(names, (n - 1) as nat) {
            Err(i) => Err(i),
            Ok(before) => match parsed_patch(names[n - 1]) {
                None => Err(n - 1),
                Some(patch) => Ok(before.push(patch)),
            },
        }
    }
}

/// The patches that a selection stands for: all of them, those of the presets,
/// and those that are named, each once.
pub open spec fn selected(
    patches: Seq<Seq<char>>,
    presets: Seq<Seq<char>>,
    all: bool,
) -> Result<Seq<PatchId>, SelectionFault> {
    match preset_patches(presets, presets.len()) {
        Err(i) => Err(SelectionFault::Preset(i)),
        Ok(from_presets) => match named_patches(patches, patches.len()) {
            Err(i) => Err(SelectionFault::Patch(i)),
            Ok(named) => {
                let everything = if all {
                    patch_ids()
                } else {
                    Seq::empty()
                };
                let out = everything + from_presets + named;
                if out.len() == 0 {
                    Err(SelectionFault::Nothing)
                } else {
                    Ok(uniques(out, out.len()))
                }
            },
        },
    }
}

/// What a resolved selection says.
pub open spec fn selection_is(
    r: Result<Vec<PatchId>, SelectionError>,
    patches: Seq<Seq<char>>,
    presets: Seq<Seq<char>>,
    all: bool,
) -> bool {
    match (r, selected(patches, presets, all)) {
        (Ok(v), Ok(ids)) => v@ == ids,
        (Err(SelectionError::UnknownPreset(name)), Err(SelectionFault::Preset(i))) => name@
            == presets[i],
        (Err(SelectionError::UnknownPatch(name)), Err(SelectionFault::Patch(i))) => name@
            == patches[i],
        (Err(SelectionError::NothingSelected), Err(SelectionFault::Nothing)) => true,
        _ => false,
    }
}

proof fn lemma_preset_patches_fail(names: Seq<Seq<char>>, i: nat, n: nat)
    requires
        i <= n,
        preset_patches(names, i) is Err,
    ensures
        preset_patches(names, n) == preset_patches(names, i),
    decreases n,
{
    if i < n {
        lemma_preset_patches_fail(names, i, (n - 1) as nat);
    }
}

proof fn lemma_named_patches_fail(names: Seq<Seq<char>>, i: nat, n: nat)
    requires
        i <= n,
        named_patches(names, i) is Err,
    ensures
        named_patches(names, n) == named_patches(names, i),
    decreases n,
{
    if i < n {
        lemma_named_patches_fail(names, i, (n - 1) as nat);
    }
}

/// The patches that a selection stands for, each once.
pub fn resolve_patch_selection(selection: &PatchSelection) -> (r: Result<
    Vec<PatchId>,
    SelectionError,
>)
    ensures
        selection_is(r, texts(selection.patches@), texts(selection.presets@), selection.all),
{
    let ghost presets = texts(selection.presets@);
    let ghost patches = texts(selection.patches@);
    let mut out: Vec<PatchId> = Vec::new();
    if selection.all {
        let mut ids = every_patch();
        out.append(&mut ids);
    }
    let ghost everything = out@;
    assert(everything =~= if selection.all {
        patch_ids()
    } else {
        Seq::empty()
    });
    let n: usize = selection.presets.len();
    let mut i: usize = 0;
    let ghost mut from_presets: Seq<PatchId> = Seq::empty();
    assert(out@ =~= everything + from_presets);
    while i < n
        invariant
            i <= n == selection.presets@.len(),
            presets == texts(selection.presets@),
            patches == texts(selection.patches@),
            preset_patches(presets, i as nat) == Ok::<Seq<PatchId>, int>(from_presets),
            out@ == everything + from_presets,
        decreases n - i,
    {
        assert(presets[i as int] == selection.presets@[i as int]@);
        match parse_preset(selection.presets[i].as_str()) {
            None => {
                proof {
                    lemma_preset_patches_fail(presets, (i + 1) as nat, n as nat);
                }
                return Err(SelectionError::UnknownPreset(selection.presets[i].clone()));
            },
            Some(preset) => {
                let ghost more = preset@.patches;
                let mut ids = preset.patches;
                out.append(&mut ids);
                proof {
                    from_presets = from_presets + more;
                    assert(out@ =~= everything + from_presets);
                }
            },
        }
        i = i + 1;
    }
    let m: usize = selection.patches.len();
    let mut k: usize = 0;
    let ghost mut named: Seq<PatchId> = Seq::empty();
    assert(out@ =~= everything + from_presets + named);
    while k < m
        invariant
            k <= m == selection.patches@.len(),
            presets == texts(selection.presets@),
            patches == texts(selection.patches@),
            preset_patches(presets, presets.len()) == Ok::<Seq<PatchId>, int>(from_presets),
            named_patches(patches, k as nat) == Ok::<Seq<PatchId>, int>(named),
            out@ == everything + from_presets + named,
        decreases m - k,
    {
        assert(patches[k as int] == selection.patches@[k as int]@);
        match parse_patch(selection.patches[k].as_str()) {
            None => {
                proof {
                    lemma_named_patches_fail(patches, (k + 1) as nat, m as nat);
                }
                return Err(SelectionError::UnknownPatch(selection.patches[k].clone()));
            },
            Some(patch) => {
                out.push(patch);
                proof {
                    named = named.push(patch);
                    assert(out@ =~= everything + from_presets + named);
                }
            },
        }
        k = k + 1;
    }
    if out.len() == 0 {
        return Err(SelectionError::NothingSelected);
    }
    Ok(unique_patches(out.as_slice()))
}

/// The patches of those names, or all of them.
pub fn parse_patch_names(names: Vec<String>, all: bool) -> (r: Result<
    Vec<PatchId>,
    SelectionError,
>)
    ensures
        selection_is(r, texts(names@), Seq::empty(), all),
{
    let selection = PatchSelection { patches: names, presets: Vec::new(), all };
    assert(texts(selection.presets@) =~= Seq::<Seq<char>>::empty());
    resolve_patch_selection(&selection)
}

/// Every listed patch.
pub fn list_patch_ids() -> (r: Vec<PatchId>)
    ensures
        r@ == patch_ids(),
{
    every_patch()
}

/// The names of some patches.
pub fn patch_names(ids: &[PatchId]) -> (r: Vec<&'static str>)
    ensures
        str_views(r@) == ids@.map_values(|id: PatchId| crate::patches::name_of(id)),
{
    let ghost names = ids@.map_values(|id: PatchId| crate::patches::name_of(id));
    let n: usize = ids.len();
    let mut r: Vec<&'static str> = Vec::new();
    let mut i: usize = 0;
    while i < n
        invariant
            i <= n == ids@.len(),
            names == ids@.map_values(|id: PatchId| crate::patches::name_of(id)),
            str_views(r@) == names.take(i as int),
        decreases n - i,
    {
        let ghost before = str_views(r@);
        let name = patch_label(ids[i]);
        r.push(name);
        i = i + 1;
        assert(str_views(r@) =~= before.push(name@));
        assert(str_views(r@) =~= names.take(i as int));
    }
    assert(str_views(r@) =~= names);
    r
}

/// The names of the presets.
pub fn preset_names() -> (r: Vec<&'static str>)
    ensures
        str_views(r@) == preset_list().map_values(|p: PresetView| p.name),
{
    let ghost names = preset_list().map_values(|p: PresetView| p.name);
    let presets = all_presets();
    let n: usize = presets.len();
    let mut r: Vec<&'static str> = Vec::new();
    let mut i: usize = 0;
    while i < n
        invariant
            i <= n == presets@.len(),
            preset_views(presets@) == preset_list(),
            names == preset_list().map_values(|p: PresetView| p.name),
            str_views(r@) == names.take(i as int),
        decreases n - i,
    {
        let ghost before = str_views(r@);
        assert(preset_views(presets@)[i as int] == presets@[i as int]@);
        r.push(presets[i].name);
        i = i + 1;
        assert(str_views(r@) =~= before.push(presets@[i - 1].name@));
        assert(str_views(r@) =~= names.take(i as int));
    }
    assert(str_views(r@) =~= names);
    r
}

/// A selection that resolves holds each of its patches once, and at least one.
pub proof fn law_selections_hold_each_patch_once(
    patches: Seq<Seq<char>>,
    presets: Seq<Seq<char>>,
    all: bool,
)
    requires
        selected(patches, presets, all) is Ok,
    ensures
        selected(patches, presets, all)->Ok_0.no_duplicates(),
        selected(patches, presets, all)->Ok_0.len() > 0,
{
    let everything = if all {
        patch_ids()
    } else {
        Seq::empty()
    };
    let out = everything + preset_patches(presets, presets.len())->Ok_0 + named_patches(
        patches,
        patches.len(),
    )->Ok_0;
    crate::patches::law_unique_patches_hold_each_once(out, out.len());
    assert(out[0] == out[0]);
    assert(uniques(out, out.len()).contains(out[0]));
}

/// Where each listed patch has a file in the index, the targets of a selection of
/// all patches can be collected.
pub proof fn law_all_patches_can_be_collected(v: IndexView, paths: Seq<Seq<char>>)
    requires
        forall|id: PatchId| #[trigger]
            patch_ids().contains(id) ==> crate::targets::target_files(v, paths, id).len() > 0,
    ensures
        selected(Seq::empty(), Seq::empty(), true) == Ok::<Seq<PatchId>, SelectionFault>(
            patch_ids(),
        ),
        crate::targets::all_targets(v, paths, patch_ids(), patch_ids().len()) is Ok,
{
    let none: Seq<PatchId> = Seq::empty();
    assert(patch_ids() + none + none =~= patch_ids());
    assert(patch_ids().no_duplicates());
    crate::patches::law_unique_patches_stay(patch_ids(), patch_ids().len());
    assert(patch_ids().take(patch_ids().len() as int) =~= patch_ids());
    crate::targets::law_listed_patches_can_be_collected(
        v,
        paths,
        patch_ids(),
        patch_ids().len(),
    );
}

/// An index that files were replaced in counts as patched.
pub proof fn law_replacing_marks_the_index(
    v: IndexView,
    layout: InstallLayout,
    ordinal: nat,
    edits: Seq<(crate::index::FileView, Seq<u8>)>,
)
    requires
        replaced_files(v, custom_name(bundle_prefix_of(layout), ordinal), edits).1 is Ok,
    ensures
        patched_index(
            replaced_files(v, custom_name(bundle_prefix_of(layout), ordinal), edits).0.bundles,
        ),
{
    let prefix = bundle_prefix_of(layout);
    let name = custom_name(prefix, ordinal);
    let n = v.bundles.len();
    let grown = with_bundle(v, name);
    lemma_edits_keep_bundles(grown, n as u32, edits, 0, 0);
    let after = replaced_files(v, name, edits).0;
    assert(after.bundles[n as int].name == name);
    assert(name.subrange(0, prefix.len() as int) =~= prefix);
    assert(starts_with(after.bundles[n as int].name, prefix));
    assert(has_bundle_with_prefix(after.bundles, prefix));
}

proof fn lemma_edits_keep_bundles(
    v: IndexView,
    bundle_index: u32,
    edits: Seq<(crate::index::FileView, Seq<u8>)>,
    i: int,
    offset: int,
)
    requires
        0 <= i <= edits.len(),
    ensures
        edits_applied(v, bundle_index, edits, i, offset).0.bundles == v.bundles,
    decreases edits.len() - i,
{
    if i < edits.len() {
        let hash = edits[i].0.hash;
        let len = edits[i].1.len();
        if offset <= u32::MAX && len <= u32::MAX && v.files.contains_key(hash) {
            lemma_edits_keep_bundles(
                crate::index_update::with_file_record(
                    v,
                    hash,
                    bundle_index,
                    offset as u32,
                    len as u32,
                ),
                bundle_index,
                edits,
                i + 1,
                offset + len,
            );
        }
    }
}

/// A path that a search found, and whether a file lies there.
#[derive(Debug)]
pub struct PathSearchResult {
    pub path: String,
    pub has_record: bool,
}

pub struct FoundView {
    pub path: Seq<char>,
    pub has_record: bool,
}

impl View for PathSearchResult {
    type V = FoundView;

    open spec fn view(&self) -> FoundView {
        FoundView { path: self.path@, has_record: self.has_record }
    }
}

pub open spec fn found_views(v: Seq<PathSearchResult>) -> Seq<FoundView> {
    v.map_values(|f: PathSearchResult| f@)
}

/// The first `limit` of those of the first `n` paths that hold the query, whatever
/// its case.
pub open spec fn paths_with(
    v: IndexView,
    paths: Seq<Seq<char>>,
    query: Seq<char>,
    limit: nat,
    n: nat,
) -> Seq<FoundView>
    decreases n,
{
    if n == 0 {
        Seq::empty()
    } else {
        let before = paths_with(v, paths, query, limit, (n - 1) as nat);
        let path = paths[n - 1];
        if before.len() < limit && contains_text(lower_all(path), lower_all(query)) {
            before.push(FoundView { path, has_record: file_of(v, path) is Some })
        } else {
            before
        }
    }
}

/// The first `limit` paths of the index that hold the query, whatever its case.
/// Only paths that are built are searched.
pub fn find_paths(index: &BundleIndex, query: &str, limit: usize) -> (r: Vec<PathSearchResult>)
    ensures
        ({
            let paths = match index@.paths {
                Some(paths) => paths,
                None => Seq::empty(),
            };
            found_views(r@) == paths_with(index@, paths, query@, limit as nat, paths.len())
        }),
{
    let paths = index.paths();
    let ghost all = texts(paths@);
    let chars = chars_of(query);
    let wanted = lower_chars(chars.as_slice());
    let n: usize = paths.len();
    let mut r: Vec<PathSearchResult> = Vec::new();
    let mut i: usize = 0;
    assert(found_views(r@) =~= paths_with(index@, all, query@, limit as nat, 0));
    while i < n
        invariant
            i <= n == paths@.len(),
            all == texts(paths@),
            wanted@ == lower_all(query@),
            found_views(r@) == paths_with(index@, all, query@, limit as nat, i as nat),
        decreases n - i,
    {
        let ghost before = found_views(r@);
        assert(all[i as int] == paths@[i as int]@);
        assert(before.len() == r@.len());
        let path = chars_of(paths[i].as_str());
        let path = lower_chars(path.as_slice());
        if r.len() < limit && has_text(path.as_slice(), wanted.as_slice()) {
            let one = PathSearchResult {
                path: paths[i].clone(),
                has_record: index.file_by_path(paths[i].as_str()).is_some(),
            };
            let ghost view = one@;
            r.push(one);
            assert(found_views(r@) =~= before.push(view));
        }
        i = i + 1;
    }
    r
}

/// A file, and its beginning as bytes and as text.
#[derive(Debug)]
pub struct InspectedPath {
    pub path: String,
    pub size: usize,
    pub bytes: Vec<u8>,
    pub text_preview: Option<String>,
}

pub open spec fn at_most<T>(s: Seq<T>, n: nat) -> Seq<T> {
    if s.len() <= n {
        s
    } else {
        s.take(n as int)
    }
}

/// The text of a file: UTF-16 where it begins with a byte order mark, or else
/// UTF-8.
pub open spec fn text_of_file(bytes: Seq<u8>) -> Option<Seq<char>> {
    if bytes.len() >= 2 && bytes[0] == 0xff && bytes[1] == 0xfe {
        utf16_text(byte_units(bytes))
    } else if valid_utf8(bytes) {
        Some(decode_utf8(bytes))
    } else {
        None
    }
}

/// A file, and at most `limit` bytes and characters of it.
pub fn inspect_path(path: &str, bytes: &[u8], limit: usize) -> (r: InspectedPath)
    ensures
        r.path@ == path@,
        r.size == bytes@.len(),
        r.bytes@ == at_most(bytes@, limit as nat),
        match text_of_file(bytes@) {
            Some(t) => r.text_preview is Some && r.text_preview->0@ == at_most(t, limit as nat),
            None => r.text_preview is None,
        },
{
    let n: usize = bytes.len();
    let shown: usize = if n <= limit {
        n
    } else {
        limit
    };
    let head = crate::bytes::copy_range(bytes, 0, shown);
    assert(head@ =~= at_most(bytes@, limit as nat));
    let text: Option<Vec<char>> = if n >= 2 && bytes[0] == 0xff && bytes[1] == 0xfe {
        let units = bytes_to_units(bytes);
        decode_units(units.as_slice())
    } else {
        let copy = crate::bytes::copy_range(bytes, 0, n);
        assert(copy@ =~= bytes@);
        match decode_bytes(copy) {
            Some(t) => Some(chars_of(t.as_str())),
            None => None,
        }
    };
    let text_preview = match text {
        Some(t) => {
            let m: usize = if t.len() <= limit {
                t.len()
            } else {
                limit
            };
            let part = char_range(t.as_slice(), 0, m);
            assert(part@ =~= at_most(t@, limit as nat));
            Some(string_of(part.as_slice()))
        },
        None => None,
    };
    InspectedPath { path: path.to_string(), size: n, bytes: head, text_preview }
}

/// Whether a file describes stats: those directly in the folder of the
/// descriptions.
pub open spec fn describes_stats(path: Seq<char>) -> bool {
    let p = normalized(path);
    let prefix = "data/statdescriptions/"@;
    let rest = p.subrange(prefix.len() as int, p.len() as int);
    &&& starts_with(p, prefix)
    &&& ends_with(rest, ".csd"@)
    &&& !rest.contains('/')
}

/// Whether a file describes stats.
pub fn is_stat_description(path: &str) -> (r: bool)
    ensures
        r == describes_stats(path@),
{
    let p = normalize_chars(path);
    let prefix = chars_of("data/statdescriptions/");
    let suffix = chars_of(".csd");
    if !has_prefix(p.as_slice(), prefix.as_slice()) {
        return false;
    }
    let rest = char_range(p.as_slice(), prefix.len(), p.len());
    proof {
        lemma_index_of_char(rest@, '/', 0);
        if rest@.contains('/') {
            let k = choose|k: int| 0 <= k < rest@.len() && rest@[k] == '/';
            assert(index_of_char(rest@, '/', 0) <= k);
        } else if index_of_char(rest@, '/', 0) < rest@.len() {
            assert(rest@.contains(rest@[index_of_char(rest@, '/', 0)]));
        }
    }
    has_suffix(rest.as_slice(), suffix.as_slice()) && position_of_char(rest.as_slice(), '/', 0)
        >= rest.len()
}

/// The state of an install.
#[derive(Debug)]
pub struct AppStatus {
    pub game_dir: String,
    pub index_path: String,
    pub index_display_path: String,
    pub install_layout: InstallLayout,
    pub indexed_paths: usize,
    pub backup_path: String,
    pub has_backup: bool,
    pub patch_state: PatchState,
}

/// What the patches would change.
#[derive(Debug)]
pub struct PatchPreview {
    pub game_dir: String,
    pub patches: Vec<PatchId>,
    pub changes: Vec<PatchChange>,
}

/// What the patches changed.
#[derive(Debug)]
pub struct ApplyReport {
    pub game_dir: String,
    pub changed_files: usize,
    pub touched_paths: Vec<String>,
    pub backup_path: String,
}

} // verus!
