//! From selected files to replacements.

use crate::bytes::{byte_seqs, copy_range, same_bytes};
use crate::index::{indexed_views, BundleFile, FileView, IndexedPath, IndexedView};
use crate::order::{last_positions, lists_last, sorted_last, text_before};
use crate::patches::{unique_patches, uniques, PatchId};
use crate::replacements::{edit_views, slice_file, sliced};
use crate::sort::{picked, positions};
use crate::targets::{applies, patch_applies_path};
use crate::text::{char_seqs, chars_of, same_text, string_of, texts};
use crate::transforms::{transform, transformed, TransformError};
use vstd::prelude::*;

verus! {

/// The paths of some files.
pub open spec fn paths_of(v: Seq<IndexedView>) -> Seq<Seq<char>> {
    v.map_values(|f: IndexedView| f.path)
}

/// The names of the bundles of some files.
pub open spec fn bundles_of(v: Seq<IndexedView>) -> Seq<Seq<char>> {
    v.map_values(|f: IndexedView| f.file.bundle_name)
}

fn path_chars(files: &Vec<IndexedPath>) -> (r: Vec<Vec<char>>)
    ensures
        char_seqs(r@) == paths_of(indexed_views(files@)),
{
    let n: usize = files.len();
    let mut r: Vec<Vec<char>> = Vec::new();
    let mut i: usize = 0;
    while i < n
        invariant
            i <= n == files@.len(),
            char_seqs(r@) == paths_of(indexed_views(files@)).take(i as int),
        decreases n - i,
    {
        let ghost before = char_seqs(r@);
        assert(indexed_views(files@)[i as int] == files@[i as int]@);
        let one = chars_of(files[i].path.as_str());
        let ghost view = one@;
        r.push(one);
        i = i + 1;
        assert(char_seqs(r@) =~= before.push(view));
        assert(char_seqs(r@) =~= paths_of(indexed_views(files@)).take(i as int));
    }
    assert(char_seqs(r@) =~= paths_of(indexed_views(files@)));
    r
}

/// The files in the order of their paths, each path once, with the file that came
/// last.
pub fn dedup_candidates(candidates: Vec<IndexedPath>) -> (r: Vec<IndexedPath>)
    ensures
        ({
            let paths = paths_of(indexed_views(candidates@));
            &&& lists_last(paths, 0, paths.len() as int, last_positions(paths))
            &&& indexed_views(r@) == picked(indexed_views(candidates@), last_positions(paths))
        }),
{
    let ghost all = indexed_views(candidates@);
    let keys = path_chars(&candidates);
    let order = sorted_last(&keys);
    let ghost p = positions(order@);
    let n: usize = order.len();
    let mut r: Vec<IndexedPath> = Vec::new();
    let mut i: usize = 0;
    while i < n
        invariant
            i <= n == order@.len(),
            all == indexed_views(candidates@),
            p == positions(order@),
            lists_last(paths_of(all), 0, all.len() as int, p),
            indexed_views(r@) == picked(all, p).take(i as int),
        decreases n - i,
    {
        let ghost before = indexed_views(r@);
        assert(p[i as int] == order@[i as int] as int);
        let at: usize = order[i];
        assert(all[at as int] == candidates@[at as int]@);
        let one = IndexedPath {
            path: candidates[at].path.clone(),
            file: candidates[at].file.clone(),
        };
        let ghost view = one@;
        r.push(one);
        i = i + 1;
        assert(indexed_views(r@) =~= before.push(view));
        assert(indexed_views(r@) =~= picked(all, p).take(i as int));
    }
    assert(indexed_views(r@) =~= picked(all, p));
    r
}

/// The names of the bundles that hold some files, in order, each once.
pub fn candidate_bundles(candidates: &Vec<IndexedPath>) -> (r: Vec<String>)
    ensures
        ({
            let names = bundles_of(indexed_views(candidates@));
            &&& lists_last(names, 0, names.len() as int, last_positions(names))
            &&& texts(r@) == picked(names, last_positions(names))
        }),
{
    let ghost names = bundles_of(indexed_views(candidates@));
    let n: usize = candidates.len();
    let mut keys: Vec<Vec<char>> = Vec::new();
    let mut i: usize = 0;
    while i < n
        invariant
            i <= n == candidates@.len(),
            names == bundles_of(indexed_views(candidates@)),
            char_seqs(keys@) == names.take(i as int),
        decreases n - i,
    {
        let ghost before = char_seqs(keys@);
        assert(indexed_views(candidates@)[i as int] == candidates@[i as int]@);
        let one = chars_of(candidates[i].file.bundle_name.as_str());
        let ghost view = one@;
        keys.push(one);
        i = i + 1;
        assert(char_seqs(keys@) =~= before.push(view));
        assert(char_seqs(keys@) =~= names.take(i as int));
    }
    assert(char_seqs(keys@) =~= names);
    let order = sorted_last(&keys);
    let ghost p = positions(order@);
    let m: usize = order.len();
    let mut r: Vec<String> = Vec::new();
    let mut k: usize = 0;
    while k < m
        invariant
            k <= m == order@.len(),
            char_seqs(keys@) == names,
            p == positions(order@),
            lists_last(names, 0, names.len() as int, p),
            texts(r@) == picked(names, p).take(k as int),
        decreases m - k,
    {
        let ghost before = texts(r@);
        assert(p[k as int] == order@[k as int] as int);
        assert(names[p[k as int]] == keys@[p[k as int]]@);
        let one = string_of(keys[order[k]].as_slice());
        let ghost view = one@;
        r.push(one);
        k = k + 1;
        assert(texts(r@) =~= before.push(view));
        assert(texts(r@) =~= picked(names, p).take(k as int));
    }
    assert(texts(r@) =~= picked(names, p));
    r
}

/// A file after the first `n` patches: its bytes, and whether one of them
/// changed it.
pub open spec fn file_patched(
    patches: Seq<PatchId>,
    path: Seq<char>,
    bytes: Seq<u8>,
    zoom: Seq<char>,
    n: nat,
) -> Result<(Seq<u8>, bool), TransformError>
    decreases n,
{
    if n == 0 {
        Ok((bytes, false))
    } else {
        match file_patched(patches, path, bytes, zoom, (n - 1) as nat) {
            Err(e) => Err(e),
            Ok((now, changed)) => if !applies(patches[n - 1], path) {
                Ok((now, changed))
            } else {
                match transformed(patches[n - 1], path, now, zoom) {
                    Err(e) => Err(e),
                    Ok(after) => Ok((after, changed || after != now)),
                }
            },
        }
    }
}

proof fn lemma_file_patched_fails(
    patches: Seq<PatchId>,
    path: Seq<char>,
    bytes: Seq<u8>,
    zoom: Seq<char>,
    i: nat,
    n: nat,
)
    requires
        i <= n,
        file_patched(patches, path, bytes, zoom, i) is Err,
    ensures
        file_patched(patches, path, bytes, zoom, n) == file_patched(patches, path, bytes, zoom, i),
    decreases n,
{
    if i < n {
        lemma_file_patched_fails(patches, path, bytes, zoom, i, (n - 1) as nat);
    }
}

/// Applies those patches to a file that are for it, in order. Says whether one of
/// them changed it.
pub fn transform_file(patches: &[PatchId], path: &str, bytes: Vec<u8>, zoom: &str) -> (r: Result<
    (Vec<u8>, bool),
    TransformError,
>)
    ensures
        match r {
            Ok((out, changed)) => file_patched(patches@, path@, bytes@, zoom@, patches@.len())
                == Ok::<(Seq<u8>, bool), TransformError>((out@, changed)),
            Err(e) => file_patched(patches@, path@, bytes@, zoom@, patches@.len()) == Err::<
                (Seq<u8>, bool),
                TransformError,
            >(e),
        },
{
    let ghost start = bytes@;
    let n: usize = patches.len();
    let mut now = bytes;
    let mut changed: bool = false;
    let mut i: usize = 0;
    while i < n
        invariant
            i <= n == patches@.len(),
            start == bytes@,
            file_patched(patches@, path@, start, zoom@, i as nat) == Ok::<
                (Seq<u8>, bool),
                TransformError,
            >((now@, changed)),
        decreases n - i,
    {
        if patch_applies_path(patches[i], path) {
            match transform(patches[i], path, now.as_slice(), zoom) {
                Ok(after) => {
                    if !same_bytes(after.as_slice(), now.as_slice()) {
                        now = after;
                        changed = true;
                    }
                },
                Err(e) => {
                    proof {
                        lemma_file_patched_fails(
                            patches@,
                            path@,
                            start,
                            zoom@,
                            (i + 1) as nat,
                            n as nat,
                        );
                    }
                    return Err(e);
                },
            }
        }
        i = i + 1;
    }
    Ok((now, changed))
}

/// A change of a file.
#[derive(Debug)]
pub struct PatchChange {
    pub path: String,
    pub bundle_name: String,
    pub old_size: usize,
    pub new_size: usize,
}

pub struct ChangeView {
    pub path: Seq<char>,
    pub bundle_name: Seq<char>,
    pub old_size: nat,
    pub new_size: nat,
}

impl View for PatchChange {
    type V = ChangeView;

    open spec fn view(&self) -> ChangeView {
        ChangeView {
            path: self.path@,
            bundle_name: self.bundle_name@,
            old_size: self.old_size as nat,
            new_size: self.new_size as nat,
        }
    }
}

/// The replacements in one bundle.
#[derive(Debug)]
pub struct BundleEdits {
    pub bundle_name: String,
    pub edits: Vec<(BundleFile, Vec<u8>)>,
}

pub struct EditsView {
    pub bundle_name: Seq<char>,
    pub edits: Seq<(FileView, Seq<u8>)>,
}

impl View for BundleEdits {
    type V = EditsView;

    open spec fn view(&self) -> EditsView {
        EditsView { bundle_name: self.bundle_name@, edits: edit_views(self.edits@) }
    }
}

/// What the patches change: the changes file by file, and the replacements
/// bundle by bundle, each bundle once.
#[derive(Debug)]
pub struct PatchSet {
    pub changes: Vec<PatchChange>,
    pub replacements: Vec<BundleEdits>,
}

pub struct SetView {
    pub changes: Seq<ChangeView>,
    pub replacements: Seq<EditsView>,
}

pub open spec fn change_views(v: Seq<PatchChange>) -> Seq<ChangeView> {
    v.map_values(|c: PatchChange| c@)
}

pub open spec fn group_views(v: Seq<BundleEdits>) -> Seq<EditsView> {
    v.map_values(|g: BundleEdits| g@)
}

impl View for PatchSet {
    type V = SetView;

    open spec fn view(&self) -> SetView {
        SetView {
            changes: change_views(self.changes@),
            replacements: group_views(self.replacements@),
        }
    }
}

/// The first group from `i` on of that bundle, or how many groups there are.
pub open spec fn group_of(groups: Seq<EditsView>, name: Seq<char>, i: int) -> int
    decreases groups.len() - i,
{
    if i < 0 || i >= groups.len() {
        groups.len() as int
    } else if groups[i].bundle_name == name {
        i
    } else {
        group_of(groups, name, i + 1)
    }
}

/// The groups with one more replacement.
pub open spec fn with_edit(groups: Seq<EditsView>, file: FileView, bytes: Seq<u8>) -> Seq<
    EditsView,
> {
    let i = group_of(groups, file.bundle_name, 0);
    if i < groups.len() {
        groups.update(
            i,
            EditsView {
                bundle_name: file.bundle_name,
                edits: groups[i].edits.push((file, bytes)),
            },
        )
    } else {
        groups.push(EditsView { bundle_name: file.bundle_name, edits: seq![(file, bytes)] })
    }
}

fn find_group(groups: &Vec<BundleEdits>, name: &str) -> (r: usize)
    ensures
        r == group_of(group_views(groups@), name@, 0),
        r <= groups@.len(),
{
    let n: usize = groups.len();
    let mut i: usize = 0;
    while i < n
        invariant
            i <= n == groups@.len(),
            group_of(group_views(groups@), name@, 0) == group_of(
                group_views(groups@),
                name@,
                i as int,
            ),
        decreases n - i,
    {
        assert(group_views(groups@)[i as int] == groups@[i as int]@);
        if same_text(groups[i].bundle_name.as_str(), name) {
            return i;
        }
        i = i + 1;
    }
    n
}

fn push_edit(groups: &mut Vec<BundleEdits>, file: BundleFile, bytes: Vec<u8>)
    ensures
        group_views(final(groups)@) == with_edit(group_views(old(groups)@), file@, bytes@),
{
    let ghost start = group_views(groups@);
    let ghost edit = (file@, bytes@);
    let at: usize = find_group(groups, file.bundle_name.as_str());
    if at < groups.len() {
        assert(start[at as int] == groups@[at as int]@);
        proof {
            lemma_group_of(start, file@.bundle_name, 0);
        }
        let mut edits: Vec<(BundleFile, Vec<u8>)> = Vec::new();
        std::mem::swap(&mut edits, &mut groups[at].edits);
        let ghost before = edit_views(edits@);
        edits.push((file, bytes));
        assert(edit_views(edits@) =~= before.push(edit));
        std::mem::swap(&mut edits, &mut groups[at].edits);
        assert(group_views(groups@) =~= with_edit(start, edit.0, edit.1));
    } else {
        let bundle_name = file.bundle_name.clone();
        let mut edits: Vec<(BundleFile, Vec<u8>)> = Vec::new();
        edits.push((file, bytes));
        assert(edit_views(edits@) =~= seq![edit]);
        groups.push(BundleEdits { bundle_name, edits });
        assert(group_views(groups@) =~= with_edit(start, edit.0, edit.1));
    }
}

proof fn lemma_group_of(groups: Seq<EditsView>, name: Seq<char>, i: int)
    requires
        0 <= i <= groups.len(),
    ensures
        i <= group_of(groups, name, i) <= groups.len(),
        group_of(groups, name, i) < groups.len() ==> groups[group_of(groups, name, i)].bundle_name
            == name,
    decreases groups.len() - i,
{
    if i < groups.len() && groups[i].bundle_name != name {
        lemma_group_of(groups, name, i + 1);
    }
}

/// A file after the patches.
#[derive(Debug)]
pub struct TransformedFile {
    pub path: String,
    pub bytes: Vec<u8>,
    pub changed: bool,
}

pub struct TransformedView {
    pub path: Seq<char>,
    pub bytes: Seq<u8>,
    pub changed: bool,
}

impl View for TransformedFile {
    type V = TransformedView;

    open spec fn view(&self) -> TransformedView {
        TransformedView { path: self.path@, bytes: self.bytes@, changed: self.changed }
    }
}

pub open spec fn transformed_views(v: Seq<TransformedFile>) -> Seq<TransformedView> {
    v.map_values(|f: TransformedFile| f@)
}

/// The transformed files are not those that were selected.
#[derive(Debug, Clone, Copy, PartialEq, Eq, Structural)]
pub struct OrderMismatch;

/// The patch set of the first `n` files.
pub open spec fn set_of(files: Seq<IndexedView>, after: Seq<TransformedView>, n: nat) -> Result<
    SetView,
    OrderMismatch,
>
    decreases n,
{
    if n == 0 {
        Ok(SetView { changes: Seq::empty(), replacements: Seq::empty() })
    } else {
        match set_of(files, after, (n - 1) as nat) {
            Err(e) => Err(e),
            Ok(before) => {
                let selected = files[n - 1];
                let now = after[n - 1];
                if selected.path != now.path {
                    Err(OrderMismatch)
                } else if !now.changed {
                    Ok(before)
                } else {
                    Ok(
                        SetView {
                            changes: before.changes.push(
                                ChangeView {
                                    path: now.path,
                                    bundle_name: selected.file.bundle_name,
                                    old_size: selected.file.size as nat,
                                    new_size: now.bytes.len(),
                                },
                            ),
                            replacements: with_edit(
                                before.replacements,
                                selected.file,
                                now.bytes,
                            ),
                        },
                    )
                }
            },
        }
    }
}

proof fn lemma_set_fails(files: Seq<IndexedView>, after: Seq<TransformedView>, i: nat, n: nat)
    requires
        i <= n,
        set_of(files, after, i) is Err,
    ensures
        set_of(files, after, n) == set_of(files, after, i),
    decreases n,
{
    if i < n {
        lemma_set_fails(files, after, i, (n - 1) as nat);
    }
}

/// The patch set of selected files and what the patches made of them.
pub fn build_patch_set_from_transformed(
    candidates: &Vec<IndexedPath>,
    after: &Vec<TransformedFile>,
) -> (r: Result<PatchSet, OrderMismatch>)
    ensures
        ({
            let n = if candidates@.len() <= after@.len() {
                candidates@.len()
            } else {
                after@.len()
            };
            let out = set_of(indexed_views(candidates@), transformed_views(after@), n);
            match r {
                Ok(set) => out == Ok::<SetView, OrderMismatch>(set@),
                Err(e) => out == Err::<SetView, OrderMismatch>(e),
            }
        }),
{
    let ghost all = indexed_views(candidates@);
    let ghost done = transformed_views(after@);
    let n: usize = if candidates.len() <= after.len() {
        candidates.len()
    } else {
        after.len()
    };
    let mut changes: Vec<PatchChange> = Vec::new();
    let mut replacements: Vec<BundleEdits> = Vec::new();
    let mut i: usize = 0;
    assert(change_views(changes@) =~= Seq::<ChangeView>::empty());
    assert(group_views(replacements@) =~= Seq::<EditsView>::empty());
    while i < n
        invariant
            i <= n <= candidates@.len(),
            n <= after@.len(),
            n == candidates@.len() || n == after@.len(),
            all == indexed_views(candidates@),
            done == transformed_views(after@),
            set_of(all, done, i as nat) == Ok::<SetView, OrderMismatch>(
                SetView {
                    changes: change_views(changes@),
                    replacements: group_views(replacements@),
                },
            ),
        decreases n - i,
    {
        assert(all[i as int] == candidates@[i as int]@);
        assert(done[i as int] == after@[i as int]@);
        let ghost before = change_views(changes@);
        if !same_text(candidates[i].path.as_str(), after[i].path.as_str()) {
            proof {
                lemma_set_fails(all, done, (i + 1) as nat, n as nat);
            }
            return Err(OrderMismatch);
        }
        if after[i].changed {
            let bytes = copy_range(
                after[i].bytes.as_slice(),
                0,
                after[i].bytes.len(),
            );
            assert(bytes@ =~= after@[i as int].bytes@);
            let change = PatchChange {
                path: after[i].path.clone(),
                bundle_name: candidates[i].file.bundle_name.clone(),
                old_size: candidates[i].file.size as usize,
                new_size: bytes.len(),
            };
            let ghost view = change@;
            changes.push(change);
            assert(change_views(changes@) =~= before.push(view));
            push_edit(&mut replacements, candidates[i].file.clone(), bytes);
        }
        i = i + 1;
    }
    Ok(PatchSet { changes, replacements })
}

/// Changes name each path once, where the selected files do: their paths come in
/// the order of the selected files.
pub proof fn law_changes_keep_the_order(
    files: Seq<IndexedView>,
    after: Seq<TransformedView>,
    n: nat,
)
    requires
        n <= files.len(),
        set_of(files, after, n) is Ok,
        forall|i: int, j: int|
            0 <= i < j < files.len() ==> text_before(
                (#[trigger] files[i]).path,
                (#[trigger] files[j]).path,
            ),
    ensures
        forall|a: int, b: int|
            0 <= a < b < set_of(files, after, n)->Ok_0.changes.len() ==> text_before(
                (#[trigger] set_of(files, after, n)->Ok_0.changes[a]).path,
                (#[trigger] set_of(files, after, n)->Ok_0.changes[b]).path,
            ),
        forall|a: int|
            0 <= a < set_of(files, after, n)->Ok_0.changes.len() ==> exists|i: int|
                0 <= i < n && (#[trigger] files[i]).path == (#[trigger] set_of(
                    files,
                    after,
                    n,
                )->Ok_0.changes[a]).path,
    decreases n,
{
    if n > 0 {
        law_changes_keep_the_order(files, after, (n - 1) as nat);
        let before = set_of(files, after, (n - 1) as nat)->Ok_0.changes;
        let now = set_of(files, after, n)->Ok_0.changes;
        assert forall|a: int| 0 <= a < now.len() implies exists|i: int|
            0 <= i < n && (#[trigger] files[i]).path == (#[trigger] now[a]).path by {
            if a < before.len() {
                assert(now[a] == before[a]);
                let i = choose|i: int|
                    0 <= i < n - 1 && (#[trigger] files[i]).path == before[a].path;
                assert(files[i].path == now[a].path);
            } else {
                assert(files[n - 1].path == now[a].path);
            }
        }
        assert forall|a: int, b: int| 0 <= a < b < now.len() implies text_before(
            (#[trigger] now[a]).path,
            (#[trigger] now[b]).path,
        ) by {
            assert(now[a] == before[a]);
            if b < before.len() {
                assert(now[b] == before[b]);
            } else {
                let i = choose|i: int|
                    0 <= i < n - 1 && (#[trigger] files[i]).path == before[a].path;
                assert(text_before(files[i].path, files[n - 1].path));
            }
        }
    }
}

/// A bundle and what it holds, uncompressed.
#[derive(Debug)]
pub struct BundleContent {
    pub name: String,
    pub data: Vec<u8>,
}

pub struct ContentView {
    pub name: Seq<char>,
    pub data: Seq<u8>,
}

impl View for BundleContent {
    type V = ContentView;

    open spec fn view(&self) -> ContentView {
        ContentView { name: self.name@, data: self.data@ }
    }
}

pub open spec fn content_views(v: Seq<BundleContent>) -> Seq<ContentView> {
    v.map_values(|b: BundleContent| b@)
}

/// Why there is no patch set. The number is that of the file among the selected
/// ones.
#[derive(Debug, Clone, Copy, PartialEq, Eq, Structural)]
pub enum PatchSetError {
    /// The bundle of a file was not read.
    BundleMissing(usize),
    /// A file reaches beyond its bundle.
    SliceExceedsBundle(usize),
    /// A file cannot be patched.
    Transform(usize, TransformError),
    /// The transformed files are not those that were selected.
    OrderMismatch,
}

/// The first bundle from `i` on with that name, or how many there are.
pub open spec fn content_of(bundles: Seq<ContentView>, name: Seq<char>, i: int) -> int
    decreases bundles.len() - i,
{
    if i < 0 || i >= bundles.len() {
        bundles.len() as int
    } else if bundles[i].name == name {
        i
    } else {
        content_of(bundles, name, i + 1)
    }
}

/// The bytes of a selected file.
pub open spec fn file_bytes(files: Seq<IndexedView>, bundles: Seq<ContentView>, i: int) -> Result<
    Seq<u8>,
    PatchSetError,
> {
    let at = content_of(bundles, files[i].file.bundle_name, 0);
    if at >= bundles.len() {
        Err(PatchSetError::BundleMissing(i as usize))
    } else {
        match sliced(bundles[at].data, files[i].file) {
            Some(bytes) => Ok(bytes),
            None => Err(PatchSetError::SliceExceedsBundle(i as usize)),
        }
    }
}

/// The bytes of the first `n` selected files.
pub open spec fn all_bytes(files: Seq<IndexedView>, bundles: Seq<ContentView>, n: nat) -> Result<
    Seq<Seq<u8>>,
    PatchSetError,
>
    decreases n,
{
    if n == 0 {
        Ok(Seq::empty())
    } else {
        match all_bytes(files, bundles, (n - 1) as nat) {
            Err(e) => Err(e),
            Ok(before) => match file_bytes(files, bundles, n - 1) {
                Err(e) => Err(e),
                Ok(bytes) => Ok(before.push(bytes)),
            },
        }
    }
}

/// What the patches make of the first `n` selected files.
pub open spec fn all_patched(
    files: Seq<IndexedView>,
    contents: Seq<Seq<u8>>,
    patches: Seq<PatchId>,
    zoom: Seq<char>,
    n: nat,
) -> Result<Seq<TransformedView>, PatchSetError>
    decreases n,
{
    if n == 0 {
        Ok(Seq::empty())
    } else {
        match all_patched(files, contents, patches, zoom, (n - 1) as nat) {
            Err(e) => Err(e),
            Ok(before) => {
                let path = files[n - 1].path;
                match file_patched(patches, path, contents[n - 1], zoom, patches.len()) {
                    Err(e) => Err(PatchSetError::Transform((n - 1) as usize, e)),
                    Ok((bytes, changed)) => Ok(
                        before.push(TransformedView { path, bytes, changed }),
                    ),
                }
            },
        }
    }
}

/// The patch set of selected files in their bundles.
pub open spec fn computed_set(
    files: Seq<IndexedView>,
    bundles: Seq<ContentView>,
    patches: Seq<PatchId>,
    zoom: Seq<char>,
) -> Result<SetView, PatchSetError> {
    match all_bytes(files, bundles, files.len()) {
        Err(e) => Err(e),
        Ok(contents) => match all_patched(files, contents, patches, zoom, files.len()) {
            Err(e) => Err(e),
            Ok(after) => match set_of(files, after, files.len()) {
                Err(_) => Err(PatchSetError::OrderMismatch),
                Ok(set) => Ok(set),
            },
        },
    }
}

fn find_content(bundles: &Vec<BundleContent>, name: &str) -> (r: usize)
    ensures
        r == content_of(content_views(bundles@), name@, 0),
        r <= bundles@.len(),
{
    let n: usize = bundles.len();
    let mut i: usize = 0;
    while i < n
        invariant
            i <= n == bundles@.len(),
            content_of(content_views(bundles@), name@, 0) == content_of(
                content_views(bundles@),
                name@,
                i as int,
            ),
        decreases n - i,
    {
        assert(content_views(bundles@)[i as int] == bundles@[i as int]@);
        if same_text(bundles[i].name.as_str(), name) {
            return i;
        }
        i = i + 1;
    }
    n
}

proof fn lemma_all_bytes_fails(
    files: Seq<IndexedView>,
    bundles: Seq<ContentView>,
    i: nat,
    n: nat,
)
    requires
        i <= n,
        all_bytes(files, bundles, i) is Err,
    ensures
        all_bytes(files, bundles, n) == all_bytes(files, bundles, i),
    decreases n,
{
    if i < n {
        lemma_all_bytes_fails(files, bundles, i, (n - 1) as nat);
    }
}

proof fn lemma_all_patched_fails(
    files: Seq<IndexedView>,
    contents: Seq<Seq<u8>>,
    patches: Seq<PatchId>,
    zoom: Seq<char>,
    i: nat,
    n: nat,
)
    requires
        i <= n,
        all_patched(files, contents, patches, zoom, i) is Err,
    ensures
        all_patched(files, contents, patches, zoom, n) == all_patched(
            files,
            contents,
            patches,
            zoom,
            i,
        ),
    decreases n,
{
    if i < n {
        lemma_all_patched_fails(files, contents, patches, zoom, i, (n - 1) as nat);
    }
}

fn read_files(candidates: &Vec<IndexedPath>, bundles: &Vec<BundleContent>) -> (r: Result<
    Vec<Vec<u8>>,
    PatchSetError,
>)
    ensures
        ({
            let out = all_bytes(
                indexed_views(candidates@),
                content_views(bundles@),
                candidates@.len(),
            );
            match r {
                Ok(v) => out == Ok::<Seq<Seq<u8>>, PatchSetError>(byte_seqs(v@)) && v@.len()
                    == candidates@.len(),
                Err(e) => out == Err::<Seq<Seq<u8>>, PatchSetError>(e),
            }
        }),
{
    let ghost files = indexed_views(candidates@);
    let ghost views = content_views(bundles@);
    let n: usize = candidates.len();
    let mut contents: Vec<Vec<u8>> = Vec::new();
    let mut i: usize = 0;
    assert(byte_seqs(contents@) =~= Seq::<Seq<u8>>::empty());
    while i < n
        invariant
            i <= n == candidates@.len(),
            files == indexed_views(candidates@),
            views == content_views(bundles@),
            contents@.len() == i,
            all_bytes(files, views, i as nat) == Ok::<Seq<Seq<u8>>, PatchSetError>(
                byte_seqs(contents@),
            ),
        decreases n - i,
    {
        let ghost before = byte_seqs(contents@);
        assert(files[i as int] == candidates@[i as int]@);
        let at: usize = find_content(bundles, candidates[i].file.bundle_name.as_str());
        if at >= bundles.len() {
            proof {
                lemma_all_bytes_fails(files, views, (i + 1) as nat, n as nat);
            }
            return Err(PatchSetError::BundleMissing(i));
        }
        assert(views[at as int] == bundles@[at as int]@);
        match slice_file(bundles[at].data.as_slice(), &candidates[i].file) {
            Ok(bytes) => {
                let ghost view = bytes@;
                contents.push(bytes);
                assert(byte_seqs(contents@) =~= before.push(view));
            },
            Err(_) => {
                proof {
                    lemma_all_bytes_fails(files, views, (i + 1) as nat, n as nat);
                }
                return Err(PatchSetError::SliceExceedsBundle(i));
            },
        }
        i = i + 1;
    }
    Ok(contents)
}

/// The patch set of selected files. `bundles` holds the bundles that they lie in.
/// The patches are applied in the order of the selection, each once.
pub fn compute_patch_set(
    candidates: &Vec<IndexedPath>,
    bundles: &Vec<BundleContent>,
    selection: &[PatchId],
    zoom: &str,
) -> (r: Result<PatchSet, PatchSetError>)
    ensures
        ({
            let out = computed_set(
                indexed_views(candidates@),
                content_views(bundles@),
                uniques(selection@, selection@.len()),
                zoom@,
            );
            match r {
                Ok(set) => out == Ok::<SetView, PatchSetError>(set@),
                Err(e) => out == Err::<SetView, PatchSetError>(e),
            }
        }),
{
    let patches = unique_patches(selection);
    let ghost files = indexed_views(candidates@);
    let contents = match read_files(candidates, bundles) {
        Ok(v) => v,
        Err(e) => return Err(e),
    };
    let ghost data = byte_seqs(contents@);
    let n: usize = candidates.len();
    let mut after: Vec<TransformedFile> = Vec::new();
    let mut i: usize = 0;
    assert(transformed_views(after@) =~= Seq::<TransformedView>::empty());
    while i < n
        invariant
            i <= n == candidates@.len(),
            contents@.len() == n,
            files == indexed_views(candidates@),
            data == byte_seqs(contents@),
            after@.len() == i,
            all_patched(files, data, patches@, zoom@, i as nat) == Ok::<
                Seq<TransformedView>,
                PatchSetError,
            >(transformed_views(after@)),
            all_bytes(files, content_views(bundles@), n as nat) == Ok::<
                Seq<Seq<u8>>,
                PatchSetError,
            >(data),
            patches@ == uniques(selection@, selection@.len()),
        decreases n - i,
    {
        let ghost before = transformed_views(after@);
        assert(files[i as int] == candidates@[i as int]@);
        assert(data[i as int] == contents@[i as int]@);
        let bytes = copy_range(contents[i].as_slice(), 0, contents[i].len());
        assert(bytes@ =~= data[i as int]);
        match transform_file(patches.as_slice(), candidates[i].path.as_str(), bytes, zoom) {
            Ok((bytes, changed)) => {
                let one = TransformedFile { path: candidates[i].path.clone(), bytes, changed };
                let ghost view = one@;
                after.push(one);
                assert(transformed_views(after@) =~= before.push(view));
            },
            Err(e) => {
                proof {
                    lemma_all_patched_fails(
                        files,
                        data,
                        patches@,
                        zoom@,
                        (i + 1) as nat,
                        n as nat,
                    );
                }
                return Err(PatchSetError::Transform(i, e));
            },
        }
        i = i + 1;
    }
    match build_patch_set_from_transformed(candidates, &after) {
        Ok(set) => Ok(set),
        Err(_) => Err(PatchSetError::OrderMismatch),
    }
}

/// The replacements of the first `n` bundles, one behind the other.
pub open spec fn flat_edits(groups: Seq<EditsView>, n: nat) -> Seq<(FileView, Seq<u8>)>
    decreases n,
{
    if n == 0 {
        Seq::empty()
    } else {
        flat_edits(groups, (n - 1) as nat) + groups[n - 1].edits
    }
}

impl PatchSet {
    /// The replacements in a bundle.
    pub fn edits_of(&self, bundle_name: &str) -> (r: Option<&Vec<(BundleFile, Vec<u8>)>>)
        ensures
            ({
                let at = group_of(self@.replacements, bundle_name@, 0);
                match r {
                    Some(edits) => at < self@.replacements.len() && edit_views(edits@)
                        == self@.replacements[at].edits,
                    None => at >= self@.replacements.len(),
                }
            }),
    {
        let at: usize = find_group(&self.replacements, bundle_name);
        if at < self.replacements.len() {
            assert(self@.replacements[at as int] == self.replacements@[at as int]@);
            Some(&self.replacements[at].edits)
        } else {
            None
        }
    }

    /// All replacements.
    pub fn into_edits(self) -> (r: Vec<(BundleFile, Vec<u8>)>)
        ensures
            edit_views(r@) == flat_edits(self@.replacements, self@.replacements.len()),
    {
        let ghost groups = self@.replacements;
        let mut replacements = self.replacements;
        let n: usize = replacements.len();
        let mut r: Vec<(BundleFile, Vec<u8>)> = Vec::new();
        let mut i: usize = 0;
        assert(edit_views(r@) =~= Seq::<(FileView, Seq<u8>)>::empty());
        while i < n
            invariant
                i <= n == replacements@.len() == groups.len(),
                forall|k: int| i <= k < n ==> groups[k] == (#[trigger] replacements@[k])@,
                edit_views(r@) == flat_edits(groups, i as nat),
            decreases n - i,
        {
            let ghost before = edit_views(r@);
            assert(groups[i as int] == replacements@[i as int]@);
            let mut edits: Vec<(BundleFile, Vec<u8>)> = Vec::new();
            std::mem::swap(&mut edits, &mut replacements[i].edits);
            let ghost more = edit_views(edits@);
            r.append(&mut edits);
            assert(edit_views(r@) =~= before + more);
            i = i + 1;
        }
        r
    }
}

} // verus!
