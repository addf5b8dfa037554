//! What a patch set holds, and how patches work on one file in turn.

use crate::index::{normalized, FileView, IndexedView};
use crate::patch_set::{
    file_patched, group_of, set_of, with_edit, ChangeView, EditsView, OrderMismatch, SetView,
    TransformedView,
};
use crate::patches::PatchId;
use crate::pick_laws::{and_last, lemma_picks_more, lemma_picks_none, picks};
use crate::targets::{applies, targets};
use crate::text::ends_with;
use crate::transforms::{transformed, TransformError};
use vstd::prelude::*;

verus! {

/// Which of the first `n` files lie in a bundle and have changed.
pub open spec fn changed_in(
    files: Seq<IndexedView>,
    after: Seq<TransformedView>,
    name: Seq<char>,
    n: nat,
) -> Seq<bool> {
    Seq::new(n, |i: int| after[i].changed && files[i].file.bundle_name == name)
}

/// Whether the replacements of a bundle are those at the given places.
pub open spec fn are_edits_at(
    edits: Seq<(FileView, Seq<u8>)>,
    files: Seq<IndexedView>,
    after: Seq<TransformedView>,
    at: Seq<int>,
) -> bool {
    &&& edits.len() == at.len()
    &&& forall|k: int|
        0 <= k < at.len() ==> #[trigger] edits[k] == (files[at[k]].file, after[at[k]].bytes)
}

/// Whether the replacements of a bundle are those of the files in it that changed, in
/// their order.
pub open spec fn holds_changes_of(
    g: EditsView,
    files: Seq<IndexedView>,
    after: Seq<TransformedView>,
    n: nat,
) -> bool {
    exists|at: Seq<int>|
        picks(at, changed_in(files, after, g.bundle_name, n)) && #[trigger] are_edits_at(
            g.edits,
            files,
            after,
            at,
        )
}

/// Whether there is one list of replacements for each bundle in which a file changed,
/// and each holds the files that did.
pub open spec fn are_replacements(
    groups: Seq<EditsView>,
    files: Seq<IndexedView>,
    after: Seq<TransformedView>,
    n: nat,
) -> bool {
    &&& forall|g: int|
        0 <= g < groups.len() ==> holds_changes_of(#[trigger] groups[g], files, after, n)
            && groups[g].edits.len() > 0
    &&& forall|g: int, h: int|
        0 <= g < h < groups.len() ==> (#[trigger] groups[g]).bundle_name != (
        #[trigger] groups[h]).bundle_name
    &&& forall|i: int|
        0 <= i < n && after[i].changed ==> has_group(
            groups,
            (#[trigger] files[i]).file.bundle_name,
        )
}

pub open spec fn has_group(groups: Seq<EditsView>, name: Seq<char>) -> bool {
    exists|g: int| 0 <= g < groups.len() && (#[trigger] groups[g]).bundle_name == name
}

proof fn lemma_group_of(groups: Seq<EditsView>, name: Seq<char>, i: int)
    requires
        0 <= i <= groups.len(),
    ensures
        ({
            let g = group_of(groups, name, i);
            &&& i <= g <= groups.len()
            &&& g < groups.len() ==> groups[g].bundle_name == name
            &&& forall|h: int| i <= h < g ==> (#[trigger] groups[h]).bundle_name != name
        }),
    decreases groups.len() - i,
{
    if i < groups.len() && groups[i].bundle_name != name {
        lemma_group_of(groups, name, i + 1);
    }
}

/// A bundle's replacements when one more file is looked at.
proof fn lemma_group_goes_on(
    g: EditsView,
    files: Seq<IndexedView>,
    after: Seq<TransformedView>,
    n: nat,
)
    requires
        0 < n <= files.len(),
        n <= after.len(),
        holds_changes_of(g, files, after, (n - 1) as nat),
    ensures
        ({
            let more = after[n - 1].changed && files[n - 1].file.bundle_name == g.bundle_name;
            let h = EditsView {
                bundle_name: g.bundle_name,
                edits: if more {
                    g.edits.push((files[n - 1].file, after[n - 1].bytes))
                } else {
                    g.edits
                },
            };
            holds_changes_of(h, files, after, n)
        }),
{
    let m = (n - 1) as nat;
    let name = g.bundle_name;
    let less = changed_in(files, after, name, m);
    let want = changed_in(files, after, name, n);
    let at = choose|at: Seq<int>|
        picks(at, less) && #[trigger] are_edits_at(g.edits, files, after, at);
    assert(want.drop_last() =~= less);
    lemma_picks_more(at, less, want);
    let all = and_last(at, n - 1, want.last());
    let more = after[n - 1].changed && files[n - 1].file.bundle_name == name;
    assert(want.last() == more);
    let edits = if more {
        g.edits.push((files[n - 1].file, after[n - 1].bytes))
    } else {
        g.edits
    };
    assert forall|k: int| 0 <= k < all.len() implies #[trigger] edits[k] == (
        files[all[k]].file,
        after[all[k]].bytes,
    ) by {
        if k < at.len() {
            assert(edits[k] == g.edits[k]);
            assert(all[k] == at[k]);
        }
    }
    let h = EditsView { bundle_name: name, edits };
    assert(are_edits_at(h.edits, files, after, all));
    assert(picks(all, changed_in(files, after, h.bundle_name, n)));
    assert(holds_changes_of(h, files, after, n));
}

/// A bundle in which no file changed before.
proof fn lemma_new_group(
    files: Seq<IndexedView>,
    after: Seq<TransformedView>,
    name: Seq<char>,
    n: nat,
)
    requires
        n <= files.len(),
        n <= after.len(),
        forall|i: int|
            0 <= i < n && after[i].changed ==> (#[trigger] files[i]).file.bundle_name != name,
    ensures
        holds_changes_of(EditsView { bundle_name: name, edits: Seq::empty() }, files, after, n),
{
    let at = Seq::<int>::empty();
    let want = changed_in(files, after, name, n);
    assert forall|i: int| 0 <= i < want.len() && #[trigger] want[i] implies at.contains(i) by {
        assert(files[i].file.bundle_name != name);
    }
    assert(picks(at, want));
    let h = EditsView { bundle_name: name, edits: Seq::empty() };
    assert(are_edits_at(h.edits, files, after, at));
    assert(picks(at, changed_in(files, after, h.bundle_name, n)));
    assert(holds_changes_of(h, files, after, n));
}

proof fn lemma_replacements_go_on(
    groups: Seq<EditsView>,
    files: Seq<IndexedView>,
    after: Seq<TransformedView>,
    n: nat,
)
    requires
        0 < n <= files.len(),
        n <= after.len(),
        are_replacements(groups, files, after, (n - 1) as nat),
    ensures
        are_replacements(
            if after[n - 1].changed {
                with_edit(groups, files[n - 1].file, after[n - 1].bytes)
            } else {
                groups
            },
            files,
            after,
            n,
        ),
{
    let m = (n - 1) as nat;
    let file = files[n - 1].file;
    let bytes = after[n - 1].bytes;
    let name = file.bundle_name;
    if !after[n - 1].changed {
        assert forall|g: int| 0 <= g < groups.len() implies holds_changes_of(
            #[trigger] groups[g],
            files,
            after,
            n,
        ) && groups[g].edits.len() > 0 by {
            lemma_group_goes_on(groups[g], files, after, n);
            assert(groups[g] == (EditsView {
                bundle_name: groups[g].bundle_name,
                edits: groups[g].edits,
            }));
        }
    } else {
        let now = with_edit(groups, file, bytes);
        lemma_group_of(groups, name, 0);
        let t = group_of(groups, name, 0);
        assert forall|g: int| 0 <= g < now.len() implies holds_changes_of(
            #[trigger] now[g],
            files,
            after,
            n,
        ) && now[g].edits.len() > 0 by {
            if g < groups.len() {
                lemma_group_goes_on(groups[g], files, after, n);
                if g == t {
                    assert(now[g] == (EditsView {
                        bundle_name: name,
                        edits: groups[g].edits.push((file, bytes)),
                    }));
                } else {
                    assert(now[g] == groups[g]);
                    assert(groups[g].bundle_name != name) by {
                        if g < t {
                        } else {
                            assert(groups[t].bundle_name != groups[g].bundle_name);
                        }
                    }
                    assert(groups[g] == (EditsView {
                        bundle_name: groups[g].bundle_name,
                        edits: groups[g].edits,
                    }));
                }
            } else {
                assert forall|i: int| 0 <= i < m && after[i].changed implies (
                #[trigger] files[i]).file.bundle_name != name by {
                    assert(has_group(groups, files[i].file.bundle_name));
                }
                lemma_new_group(files, after, name, m);
                let none = EditsView { bundle_name: name, edits: Seq::empty() };
                lemma_group_goes_on(none, files, after, n);
                assert(none.edits.push((file, bytes)) =~= seq![(file, bytes)]);
            }
        }
        assert forall|g: int, h: int| 0 <= g < h < now.len() implies (
        #[trigger] now[g]).bundle_name != (#[trigger] now[h]).bundle_name by {
            assert(now[g].bundle_name == groups[g].bundle_name);
            if h < groups.len() {
                assert(now[h].bundle_name == groups[h].bundle_name);
            }
        }
        assert forall|i: int| 0 <= i < n && after[i].changed implies has_group(
            now,
            (#[trigger] files[i]).file.bundle_name,
        ) by {
            if i < m {
                assert(has_group(groups, files[i].file.bundle_name));
                let g = choose|g: int|
                    0 <= g < groups.len() && (#[trigger] groups[g]).bundle_name
                        == files[i].file.bundle_name;
                assert(now[g].bundle_name == groups[g].bundle_name);
            } else {
                assert(now[t].bundle_name == name);
            }
        }
    }
}

/// The patch set of some files lists each file that changed, in their order, with its
/// bundle and its sizes, and holds the new bytes of each under its bundle: one list for
/// each bundle, in the order of the files. Files that did not change are not in it.
pub proof fn law_patch_set_holds_every_change(
    files: Seq<IndexedView>,
    after: Seq<TransformedView>,
    n: nat,
) -> (at: Seq<int>)
    requires
        n <= files.len(),
        n <= after.len(),
        forall|i: int| 0 <= i < n ==> (#[trigger] files[i]).path == after[i].path,
    ensures
        ({
            let set = set_of(files, after, n)->Ok_0;
            &&& set_of(files, after, n) is Ok
            &&& picks(at, Seq::new(n, |i: int| after[i].changed))
            &&& set.changes.len() == at.len()
            &&& forall|k: int|
                0 <= k < at.len() ==> #[trigger] set.changes[k] == (ChangeView {
                    path: files[at[k]].path,
                    bundle_name: files[at[k]].file.bundle_name,
                    old_size: files[at[k]].file.size as nat,
                    new_size: after[at[k]].bytes.len(),
                })
            &&& are_replacements(set.replacements, files, after, n)
        }),
    decreases n,
{
    let want = Seq::new(n, |i: int| after[i].changed);
    if n == 0 {
        lemma_picks_none(want);
        Seq::empty()
    } else {
        let m = (n - 1) as nat;
        let at = law_patch_set_holds_every_change(files, after, m);
        let before = set_of(files, after, m)->Ok_0;
        let less = Seq::new(m, |i: int| after[i].changed);
        assert(want.drop_last() =~= less);
        lemma_picks_more(at, less, want);
        let all = and_last(at, n - 1, want.last());
        assert(files[n - 1].path == after[n - 1].path);
        let set = set_of(files, after, n)->Ok_0;
        lemma_replacements_go_on(before.replacements, files, after, n);
        assert forall|k: int| 0 <= k < all.len() implies #[trigger] set.changes[k] == (ChangeView {
            path: files[all[k]].path,
            bundle_name: files[all[k]].file.bundle_name,
            old_size: files[all[k]].file.size as nat,
            new_size: after[all[k]].bytes.len(),
        }) by {
            if k < at.len() {
                assert(set.changes[k] == before.changes[k]);
                assert(all[k] == at[k]);
            }
        }
        all
    }
}

/// Files that come in another order than those that were selected are refused.
pub proof fn law_other_order_is_refused(
    files: Seq<IndexedView>,
    after: Seq<TransformedView>,
    i: int,
    n: nat,
)
    requires
        0 <= i < n <= files.len(),
        n <= after.len(),
        files[i].path != after[i].path,
    ensures
        set_of(files, after, n) == Err::<SetView, OrderMismatch>(OrderMismatch),
    decreases n,
{
    if i < n - 1 {
        law_other_order_is_refused(files, after, i, (n - 1) as nat);
    }
}

/// Which files a patch changes once they are selected: the two patches that are for
/// files in more than one place go by the end of the path, the others by all of it.
pub proof fn law_patches_apply_to_their_files(patch: PatchId, path: Seq<char>)
    ensures
        ({
            let p = normalized(path);
            applies(patch, path) == match patch {
                PatchId::Camera => ends_with(p, ".ot"@) || ends_with(p, ".otc"@),
                PatchId::Minimap => ends_with(p, "minimap_visibility_pixel.hlsl"@) || ends_with(
                    p,
                    "minimap_blending_pixel.hlsl"@,
                ),
                _ => targets(patch, path),
            }
        }),
{
}

/// A file that none of the patches is for stays as it is.
pub proof fn law_other_files_are_not_patched(
    patches: Seq<PatchId>,
    path: Seq<char>,
    bytes: Seq<u8>,
    zoom: Seq<char>,
    n: nat,
)
    requires
        n <= patches.len(),
        forall|i: int| 0 <= i < n ==> !applies(#[trigger] patches[i], path),
    ensures
        file_patched(patches, path, bytes, zoom, n) == Ok::<(Seq<u8>, bool), TransformError>(
            (bytes, false),
        ),
    decreases n,
{
    if n > 0 {
        law_other_files_are_not_patched(patches, path, bytes, zoom, (n - 1) as nat);
        assert(!applies(patches[n - 1], path));
    }
}

/// One patch that is for a file makes of it what it makes of such files. The file has
/// changed if its bytes have.
pub proof fn law_one_patch_is_applied(
    patch: PatchId,
    path: Seq<char>,
    bytes: Seq<u8>,
    zoom: Seq<char>,
)
    requires
        applies(patch, path),
    ensures
        file_patched(seq![patch], path, bytes, zoom, 1) == match transformed(
            patch,
            path,
            bytes,
            zoom,
        ) {
            Ok(after) => Ok::<(Seq<u8>, bool), TransformError>((after, after != bytes)),
            Err(e) => Err(e),
        },
{
    assert(file_patched(seq![patch], path, bytes, zoom, 0) == Ok::<(Seq<u8>, bool), TransformError>(
        (bytes, false),
    ));
}

/// Patches work in turn: the later ones on what the earlier ones made of the file. The
/// file has changed if any of them changed it.
pub proof fn law_patches_work_in_turn(
    first: Seq<PatchId>,
    then: Seq<PatchId>,
    path: Seq<char>,
    bytes: Seq<u8>,
    zoom: Seq<char>,
    n: nat,
)
    requires
        n <= then.len(),
    ensures
        file_patched(first + then, path, bytes, zoom, first.len() + n) == match file_patched(
            first,
            path,
            bytes,
            zoom,
            first.len(),
        ) {
            Err(e) => Err::<(Seq<u8>, bool), TransformError>(e),
            Ok((middle, changed)) => match file_patched(then, path, middle, zoom, n) {
                Err(e) => Err(e),
                Ok((last, more)) => Ok((last, changed || more)),
            },
        },
    decreases n,
{
    let all = first + then;
    if n == 0 {
        lemma_same_front(first, then, path, bytes, zoom, first.len());
    } else {
        law_patches_work_in_turn(first, then, path, bytes, zoom, (n - 1) as nat);
        assert(all[first.len() + n - 1] == then[n - 1]);
    }
}

proof fn lemma_same_front(
    first: Seq<PatchId>,
    then: Seq<PatchId>,
    path: Seq<char>,
    bytes: Seq<u8>,
    zoom: Seq<char>,
    n: nat,
)
    requires
        n <= first.len(),
    ensures
        file_patched(first + then, path, bytes, zoom, n) == file_patched(
            first,
            path,
            bytes,
            zoom,
            n,
        ),
    decreases n,
{
    if n > 0 {
        lemma_same_front(first, then, path, bytes, zoom, (n - 1) as nat);
        assert((first + then)[n - 1] == first[n - 1]);
    }
}

} // verus!
