//! What is read from the standalone archive after a patch.

use crate::bytes::{holds_at, u32_at, u64_at};
use crate::ggpk::{
    depth_bound, entries_at, file_below, file_in, file_in_children, ggpk_path, may_contain, name_at,
    pdir_below, pdir_in_children, record_name, tag_of, EntryView, GgpkError, PdirView, RecordTag,
};
use crate::ggpk_frame::{
    behind_pointer, children_clear_of, clear_of, depth_at_pointer, depth_at_pointer_in_children,
    found_file, found_nothing, lemma_at_pointer, lemma_found_behind_pointer, lemma_no_pointer_below,
    lemma_same_search, lemma_span_clear, nothing_new, offset_count, same_but_pointer, still_there,
};
use crate::ggpk_patch::{
    bundles_folder, custom_file_name, entry_keys, file_record, has_index, is_index_name,
    law_file_record_is_found, lemma_folder_record, lemma_found_in_table,
    lemma_name_end, lemma_not_in_table, lemma_patch_in_place, name_bytes, name_hash_of, no_nul,
    patch_plan, patched_archive, patched_entries, pdir_record, plan_for, repointed, PlanView,
};
use crate::sort::{comes_before, lemma_stable_order_exists, picked, stable_order};
use crate::text::starts_with;
use vstd::prelude::*;

verus! {

/// A text without a slash that names a folder lies below no other folder with a
/// name.
proof fn lemma_top_folder(path: Seq<char>, wanted: Seq<char>)
    requires
        !wanted.contains('/'),
        path != wanted,
        may_contain(path, wanted),
    ensures
        path.len() == 0,
{
    if path.len() > 0 {
        let prefix = path.push('/');
        assert(prefix[path.len() as int] == '/');
        assert(wanted.subrange(0, prefix.len() as int) == prefix);
        assert(wanted[path.len() as int] == '/');
    }
}

/// Whether `folder` says what stands at its offset.
pub open spec fn stands_in(s: Seq<u8>, utf32: bool, folder: PdirView) -> bool {
    let offset = folder.offset;
    &&& 0 <= offset
    &&& offset + 48 <= s.len()
    &&& tag_of(s.subrange(offset + 4, offset + 8)) == Ok::<RecordTag, GgpkError>(RecordTag::Pdir)
    &&& folder.digest == s.subrange(offset + 16, offset + 48)
    &&& name_at(s, offset + 48, utf32) is Ok
    &&& name_at(s, offset + 48, utf32)->Ok_0.0 == folder.name
    &&& entries_at(
        s,
        utf32,
        name_at(s, offset + 48, utf32)->Ok_0.1,
        u32_at(s, offset + 12) as nat,
    ) == Ok::<Seq<EntryView>, GgpkError>(folder.entries)
}

/// A folder that was found at the top of the archive stands there under its name.
proof fn lemma_folder_stands(
    s: Seq<u8>,
    utf32: bool,
    offset: int,
    wanted: Seq<char>,
    parent: Option<int>,
    depth: nat,
)
    requires
        0 <= offset,
        !wanted.contains('/'),
        pdir_below(s, utf32, offset, Seq::empty(), wanted, parent, depth) matches Ok(Some(_)),
    ensures
        ({
            let folder = (pdir_below(s, utf32, offset, Seq::empty(), wanted, parent, depth)->Ok_0)->0;
            stands_in(s, utf32, folder) && folder.name == wanted
        }),
    decreases depth, 0int,
{
    let size = u32_at(s, offset) as int;
    match tag_of(s.subrange(offset + 4, offset + 8)) {
        Ok(RecordTag::Ggpk) => {
            lemma_folder_stands_in_children(
                s,
                utf32,
                offset + 12,
                8,
                0,
                offset_count(size),
                wanted,
                (depth - 1) as nat,
            );
        },
        Ok(RecordTag::Pdir) => {
            let (name, end) = name_at(s, offset + 48, utf32)->Ok_0;
            lemma_name_end(s, offset + 48, utf32);
            let path = ggpk_path(Seq::empty(), name);
            if path != wanted {
                lemma_top_folder(path, wanted);
                assert(path =~= Seq::<char>::empty());
                lemma_folder_stands_in_children(
                    s,
                    utf32,
                    end + 4,
                    12,
                    0,
                    u32_at(s, offset + 12) as int,
                    wanted,
                    (depth - 1) as nat,
                );
            }
        },
        _ => {},
    }
}

proof fn lemma_folder_stands_in_children(
    s: Seq<u8>,
    utf32: bool,
    pos: int,
    stride: int,
    i: int,
    n: int,
    wanted: Seq<char>,
    depth: nat,
)
    requires
        !wanted.contains('/'),
        pdir_in_children(s, utf32, pos, stride, i, n, Seq::empty(), wanted, depth) matches Ok(
            Some(_),
        ),
    ensures
        ({
            let folder = (pdir_in_children(
                s,
                utf32,
                pos,
                stride,
                i,
                n,
                Seq::empty(),
                wanted,
                depth,
            )->Ok_0)->0;
            stands_in(s, utf32, folder) && folder.name == wanted
        }),
    decreases depth, 1 + n - i,
{
    let at = pos + stride * i;
    let child = u64_at(s, at) as int;
    let r = pdir_below(s, utf32, child, Seq::empty(), wanted, Some(at), depth);
    if r matches Ok(Some(_)) {
        lemma_folder_stands(s, utf32, child, wanted, Some(at), depth);
    } else {
        lemma_folder_stands_in_children(s, utf32, pos, stride, i + 1, n, wanted, depth);
    }
}

/// Whether the records at the top of the archive, from the one at `offset` on, have
/// names without a slash. What an unnamed folder holds is at the top too.
pub open spec fn flat_at_top(s: Seq<u8>, utf32: bool, offset: int, depth: nat) -> bool
    decreases depth, 0int,
{
    if depth == 0 || offset + 8 > s.len() {
        true
    } else {
        match tag_of(s.subrange(offset + 4, offset + 8)) {
            Ok(RecordTag::Ggpk) => flat_children(
                s,
                utf32,
                offset + 12,
                8,
                0,
                offset_count(u32_at(s, offset) as int),
                (depth - 1) as nat,
            ),
            Ok(RecordTag::Pdir) => match name_at(s, offset + 48, utf32) {
                Err(_) => true,
                Ok((name, end)) => if name.len() == 0 {
                    flat_children(
                        s,
                        utf32,
                        end + 4,
                        12,
                        0,
                        u32_at(s, offset + 12) as int,
                        (depth - 1) as nat,
                    )
                } else {
                    !name.contains('/')
                },
            },
            Ok(RecordTag::File) => match name_at(s, offset + 44, utf32) {
                Err(_) => true,
                Ok((name, _)) => !name.contains('/'),
            },
            _ => true,
        }
    }
}

pub open spec fn flat_children(
    s: Seq<u8>,
    utf32: bool,
    pos: int,
    stride: int,
    i: int,
    n: int,
    depth: nat,
) -> bool
    decreases depth, 1 + n - i,
{
    let at = pos + stride * i;
    if i >= n || at + 8 > s.len() {
        true
    } else {
        &&& flat_at_top(s, utf32, u64_at(s, at) as int, depth)
        &&& flat_children(s, utf32, pos, stride, i + 1, n, depth)
    }
}

/// A path below a folder at the top is below no other name without a slash.
proof fn lemma_below_one_folder(name: Seq<char>, folder_name: Seq<char>, wanted: Seq<char>)
    requires
        name.len() > 0,
        !name.contains('/'),
        !folder_name.contains('/'),
        name != folder_name,
        starts_with(wanted, folder_name.push('/')),
    ensures
        !may_contain(name, wanted),
        name != wanted,
{
    let prefix = folder_name.push('/');
    let n = folder_name.len() as int;
    assert(wanted.subrange(0, n + 1) == prefix);
    assert(wanted[n] == prefix[n]);
    assert forall|i: int| 0 <= i < n implies #[trigger] wanted[i] != '/' by {
        assert(wanted[i] == prefix[i]);
        assert(prefix[i] == folder_name[i]);
    }
    if wanted == name {
        assert(name[n] == '/');
    }
    if starts_with(wanted, name.push('/')) {
        let m = name.len() as int;
        let other = name.push('/');
        assert(wanted.subrange(0, m + 1) == other);
        assert(wanted[m] == other[m]);
        if m > n {
            assert(wanted[n] == other[n]);
            assert(name[n] == '/');
        }
        assert(m == n);
        assert forall|i: int| 0 <= i < n implies name[i] == folder_name[i] by {
            assert(wanted[i] == prefix[i]);
            assert(wanted[i] == other[i]);
        }
        assert(name =~= folder_name);
    }
}

/// Where a folder is not found at the top, no file of it is found there.
proof fn lemma_nothing_beside_folder(
    s: Seq<u8>,
    utf32: bool,
    offset: int,
    folder_name: Seq<char>,
    parent: Option<int>,
    folder_depth: nat,
    wanted: Seq<char>,
    depth: nat,
)
    requires
        !folder_name.contains('/'),
        starts_with(wanted, folder_name.push('/')),
        flat_at_top(s, utf32, offset, depth),
        pdir_below(s, utf32, offset, Seq::empty(), folder_name, parent, folder_depth) == Ok::<
            Option<PdirView>,
            GgpkError,
        >(None),
        file_below(s, utf32, offset, Seq::empty(), wanted, depth) is Ok,
    ensures
        found_nothing(file_below(s, utf32, offset, Seq::empty(), wanted, depth)),
    decreases folder_depth, 0int,
{
    let size = u32_at(s, offset) as int;
    match tag_of(s.subrange(offset + 4, offset + 8)) {
        Ok(RecordTag::Ggpk) => {
            lemma_nothing_beside_folder_in_children(
                s,
                utf32,
                offset + 12,
                8,
                0,
                offset_count(size),
                folder_name,
                (folder_depth - 1) as nat,
                wanted,
                (depth - 1) as nat,
            );
        },
        Ok(RecordTag::Pdir) => {
            let (name, end) = name_at(s, offset + 48, utf32)->Ok_0;
            let path = ggpk_path(Seq::empty(), name);
            if name.len() == 0 {
                assert(path =~= Seq::<char>::empty());
                lemma_nothing_beside_folder_in_children(
                    s,
                    utf32,
                    end + 4,
                    12,
                    0,
                    u32_at(s, offset + 12) as int,
                    folder_name,
                    (folder_depth - 1) as nat,
                    wanted,
                    (depth - 1) as nat,
                );
            } else {
                lemma_below_one_folder(name, folder_name, wanted);
            }
        },
        Ok(RecordTag::File) => {
            let (name, _) = name_at(s, offset + 44, utf32)->Ok_0;
            let n = folder_name.len() as int;
            assert(wanted.subrange(0, n + 1)[n] == folder_name.push('/')[n]);
            assert(wanted[n] == '/');
            assert(wanted.contains('/'));
            assert(ggpk_path(Seq::empty(), name) == name);
        },
        _ => {},
    }
}

proof fn lemma_nothing_beside_folder_in_children(
    s: Seq<u8>,
    utf32: bool,
    pos: int,
    stride: int,
    i: int,
    n: int,
    folder_name: Seq<char>,
    folder_depth: nat,
    wanted: Seq<char>,
    depth: nat,
)
    requires
        !folder_name.contains('/'),
        starts_with(wanted, folder_name.push('/')),
        flat_children(s, utf32, pos, stride, i, n, depth),
        pdir_in_children(
            s,
            utf32,
            pos,
            stride,
            i,
            n,
            Seq::empty(),
            folder_name,
            folder_depth,
        ) == Ok::<Option<PdirView>, GgpkError>(None),
        file_in_children(s, utf32, pos, stride, i, n, Seq::empty(), wanted, depth) is Ok,
    ensures
        found_nothing(
            file_in_children(s, utf32, pos, stride, i, n, Seq::empty(), wanted, depth),
        ),
    decreases folder_depth, 1 + n - i,
{
    if i < n {
        let at = pos + stride * i;
        lemma_nothing_beside_folder(
            s,
            utf32,
            u64_at(s, at) as int,
            folder_name,
            Some(at),
            folder_depth,
            wanted,
            depth,
        );
        lemma_nothing_beside_folder_in_children(
            s,
            utf32,
            pos,
            stride,
            i + 1,
            n,
            folder_name,
            folder_depth,
            wanted,
            depth,
        );
    }
}

/// A search that finds nothing, or one for a file of the folder, comes to the pointer
/// of a folder that is there.
proof fn lemma_comes_to_pointer(
    s: Seq<u8>,
    utf32: bool,
    p: int,
    offset: int,
    folder_name: Seq<char>,
    parent: Option<int>,
    folder_depth: nat,
    wanted: Seq<char>,
    depth: nat,
)
    requires
        !folder_name.contains('/'),
        pdir_below(
            s,
            utf32,
            offset,
            Seq::empty(),
            folder_name,
            parent,
            folder_depth,
        ) matches Ok(Some(folder)) && folder.parent_offset_pos == Some(p),
        file_below(s, utf32, offset, Seq::empty(), wanted, depth) is Ok,
        found_nothing(file_below(s, utf32, offset, Seq::empty(), wanted, depth)) || (starts_with(
            wanted,
            folder_name.push('/'),
        ) && flat_at_top(s, utf32, offset, depth)),
    ensures
        parent == Some(p) || depth_at_pointer(
            s,
            utf32,
            p,
            offset,
            Seq::empty(),
            wanted,
            depth,
        ) is Some,
    decreases folder_depth, 0int,
{
    let size = u32_at(s, offset) as int;
    match tag_of(s.subrange(offset + 4, offset + 8)) {
        Ok(RecordTag::Ggpk) => {
            lemma_comes_to_pointer_in_children(
                s,
                utf32,
                p,
                offset + 12,
                8,
                0,
                offset_count(size),
                folder_name,
                (folder_depth - 1) as nat,
                wanted,
                (depth - 1) as nat,
            );
        },
        Ok(RecordTag::Pdir) => {
            let (name, end) = name_at(s, offset + 48, utf32)->Ok_0;
            let path = ggpk_path(Seq::empty(), name);
            if path != folder_name {
                lemma_top_folder(path, folder_name);
                assert(path =~= Seq::<char>::empty());
                lemma_comes_to_pointer_in_children(
                    s,
                    utf32,
                    p,
                    end + 4,
                    12,
                    0,
                    u32_at(s, offset + 12) as int,
                    folder_name,
                    (folder_depth - 1) as nat,
                    wanted,
                    (depth - 1) as nat,
                );
            }
        },
        _ => {},
    }
}

proof fn lemma_comes_to_pointer_in_children(
    s: Seq<u8>,
    utf32: bool,
    p: int,
    pos: int,
    stride: int,
    i: int,
    n: int,
    folder_name: Seq<char>,
    folder_depth: nat,
    wanted: Seq<char>,
    depth: nat,
)
    requires
        !folder_name.contains('/'),
        pdir_in_children(
            s,
            utf32,
            pos,
            stride,
            i,
            n,
            Seq::empty(),
            folder_name,
            folder_depth,
        ) matches Ok(Some(folder)) && folder.parent_offset_pos == Some(p),
        file_in_children(s, utf32, pos, stride, i, n, Seq::empty(), wanted, depth) is Ok,
        found_nothing(
            file_in_children(s, utf32, pos, stride, i, n, Seq::empty(), wanted, depth),
        ) || (starts_with(wanted, folder_name.push('/')) && flat_children(
            s,
            utf32,
            pos,
            stride,
            i,
            n,
            depth,
        )),
    ensures
        depth_at_pointer_in_children(
            s,
            utf32,
            p,
            pos,
            stride,
            i,
            n,
            Seq::empty(),
            wanted,
            depth,
        ) is Some,
    decreases folder_depth, 1 + n - i,
{
    let at = pos + stride * i;
    let child = u64_at(s, at) as int;
    if at != p {
        let r = pdir_below(s, utf32, child, Seq::empty(), folder_name, Some(at), folder_depth);
        if r matches Ok(Some(_)) {
            lemma_comes_to_pointer(
                s,
                utf32,
                p,
                child,
                folder_name,
                Some(at),
                folder_depth,
                wanted,
                depth,
            );
        } else {
            if !found_nothing(
                file_in_children(s, utf32, pos, stride, i, n, Seq::empty(), wanted, depth),
            ) {
                lemma_nothing_beside_folder(
                    s,
                    utf32,
                    child,
                    folder_name,
                    Some(at),
                    folder_depth,
                    wanted,
                    depth,
                );
            }
            lemma_comes_to_pointer_in_children(
                s,
                utf32,
                p,
                pos,
                stride,
                i + 1,
                n,
                folder_name,
                folder_depth,
                wanted,
                depth,
            );
        }
    }
}

proof fn lemma_entry_at(s: Seq<u8>, utf32: bool, pos: int, n: nat, i: int)
    requires
        entries_at(s, utf32, pos, n) is Ok,
        0 <= i < n,
    ensures
        entries_at(s, utf32, pos, n)->Ok_0.len() == n,
        pos + 12 * i + 12 <= s.len(),
        entries_at(s, utf32, pos, n)->Ok_0[i].offset == u64_at(s, pos + 4 + 12 * i),
        record_name(s, utf32, entries_at(s, utf32, pos, n)->Ok_0[i].offset as int) == Ok::<
            Seq<char>,
            GgpkError,
        >(entries_at(s, utf32, pos, n)->Ok_0[i].name),
    decreases n,
{
    let m = (n - 1) as nat;
    let before = entries_at(s, utf32, pos, m);
    assert(before is Ok);
    if m > 0 {
        lemma_entry_at(s, utf32, pos, m, if i < m { i } else { 0 });
    } else {
        assert(before->Ok_0.len() == 0);
    }
}

proof fn lemma_entry_count(s: Seq<u8>, utf32: bool, pos: int, n: nat)
    requires
        entries_at(s, utf32, pos, n) is Ok,
    ensures
        entries_at(s, utf32, pos, n)->Ok_0.len() == n,
{
    if n > 0 {
        lemma_entry_at(s, utf32, pos, n, 0);
    }
}

/// Where nothing is found in a table, no entry holds the file.
proof fn lemma_nothing_in_table(
    s: Seq<u8>,
    utf32: bool,
    pos: int,
    i: int,
    n: int,
    base: Seq<char>,
    wanted: Seq<char>,
    depth: nat,
    j: int,
)
    requires
        found_nothing(file_in_children(s, utf32, pos, 12, i, n, base, wanted, depth)),
        i <= j < n,
    ensures
        found_nothing(
            file_below(s, utf32, u64_at(s, pos + 12 * j) as int, base, wanted, depth),
        ),
    decreases n - i,
{
    if i < j {
        lemma_nothing_in_table(s, utf32, pos, i + 1, n, base, wanted, depth, j);
    }
}

proof fn lemma_clear_in_table(
    s: Seq<u8>,
    utf32: bool,
    p: int,
    pos: int,
    i: int,
    n: int,
    base: Seq<char>,
    depth: nat,
    j: int,
)
    requires
        children_clear_of(s, utf32, p, pos, 12, i, n, base, depth),
        i <= j < n,
        pos + 12 * j + 8 <= s.len(),
    ensures
        clear_of(s, utf32, p, u64_at(s, pos + 12 * j) as int, base, depth),
    decreases n - i,
{
    if i < j {
        lemma_clear_in_table(s, utf32, p, pos, i + 1, n, base, depth, j);
    }
}

/// What is found in one entry of the folder.
#[verifier::opaque]
pub open spec fn in_entry(
    s: Seq<u8>,
    utf32: bool,
    e: EntryView,
    wanted: Seq<char>,
    depth: nat,
) -> Result<Option<(int, int)>, GgpkError> {
    file_below(s, utf32, e.offset as int, "Bundles2"@, wanted, depth)
}

/// The path of a file in the folder `Bundles2`.
pub open spec fn bundles_path(name: Seq<char>) -> Seq<char> {
    "Bundles2/"@ + name
}

proof fn lemma_bundles_path(name: Seq<char>)
    requires
        name.len() > 0,
    ensures
        ggpk_path("Bundles2"@, name) == bundles_path(name),
        may_contain("Bundles2"@, bundles_path(name)),
        "Bundles2"@.len() > 0,
        !"Bundles2"@.contains('/'),
        no_nul("Bundles2"@),
{
    reveal_strlit("Bundles2");
    reveal_strlit("Bundles2/");
    assert("Bundles2"@.push('/') =~= "Bundles2/"@);
    assert(ggpk_path("Bundles2"@, name) =~= bundles_path(name));
    assert(bundles_path(name).subrange(0, 9) =~= "Bundles2/"@);
}

/// Where the record of the new bundle stands.
#[verifier::opaque]
pub open spec fn new_bundle_at(s: Seq<u8>, utf32: bool, index: Seq<u8>) -> int {
    s.len() as int + file_record("_.index.bin"@, index, utf32)->Ok_0.len()
}

/// The parts of a patched archive: `p` is where the pointer stands, and the new
/// records stand behind the old archive.
#[verifier::opaque]
pub open spec fn patch_stands(
    s: Seq<u8>,
    t: Seq<u8>,
    utf32: bool,
    p: int,
    bundle_name: Seq<char>,
    bundle: Seq<u8>,
    index: Seq<u8>,
) -> bool {
    let folder = bundles_folder(s, utf32);
    let x = file_record("_.index.bin"@, index, utf32);
    let y = file_record(custom_file_name(bundle_name), bundle, utf32);
    let bundle_at = new_bundle_at(s, utf32, index);
    let entries = patched_entries(
        folder.entries,
        bundle_name,
        s.len() as u64,
        bundle_at as u64,
    );
    let z = pdir_record(folder.name, folder.digest, entries, utf32);
    &&& same_but_pointer(s, t, p)
    &&& stands_in(s, utf32, folder)
    &&& folder.name == "Bundles2"@
    &&& u64_at(s, p) == folder.offset
    &&& s.len() <= u64::MAX
    &&& bundle_at <= u64::MAX
    &&& x is Ok
    &&& holds_at(t, s.len() as int, x->Ok_0)
    &&& y is Ok
    &&& holds_at(t, bundle_at, y->Ok_0)
    &&& z is Ok
    &&& holds_at(t, u64_at(t, p) as int, z->Ok_0)
}

proof fn lemma_patch_stands(
    s: Seq<u8>,
    utf32: bool,
    bundle_name: Seq<char>,
    bundle: Seq<u8>,
    index: Seq<u8>,
    plan: PlanView,
)
    requires
        s.len() <= u64::MAX,
        patch_plan(s, utf32, s.len() as u64, bundle_name, bundle, index) == Ok::<
            PlanView,
            GgpkError,
        >(plan),
    ensures
        patch_stands(
            s,
            patched_archive(s, plan),
            utf32,
            plan.backup.bundles2_offset_pos as int,
            bundle_name,
            bundle,
            index,
        ),
        bundles_folder(s, utf32).parent_offset_pos == Some(
            plan.backup.bundles2_offset_pos as int,
        ),
        patched_archive(s, plan).len() == s.len() + plan.append_bytes.len(),
        plan.append_bytes.len() > 0,
{
    reveal(patch_stands);
    reveal(new_bundle_at);
    lemma_patch_in_place(s, utf32, bundle_name, bundle, index, plan);
    assert(!"Bundles2"@.contains('/')) by {
        reveal_strlit("Bundles2");
    }
    lemma_folder_stands(
        s,
        utf32,
        0,
        "Bundles2"@,
        None,
        depth_bound(s.len(), "Bundles2"@.len()),
    );
}

/// A folder that is patched has an index.
proof fn lemma_folder_has_index(
    s: Seq<u8>,
    utf32: bool,
    bundle_name: Seq<char>,
    bundle: Seq<u8>,
    index: Seq<u8>,
) -> (k: int)
    requires
        patch_plan(s, utf32, s.len() as u64, bundle_name, bundle, index) is Ok,
    ensures
        0 <= k < bundles_folder(s, utf32).entries.len(),
        is_index_name(bundles_folder(s, utf32).entries[k].name),
{
    let entries = bundles_folder(s, utf32).entries;
    reveal(plan_for);
    assert(has_index(entries));
    choose|k: int| 0 <= k < entries.len() && is_index_name(entries[k].name)
}

/// An entry that `wanted` is not below holds nothing of it.
proof fn lemma_entry_without_path(
    s: Seq<u8>,
    utf32: bool,
    e: EntryView,
    wanted: Seq<char>,
    depth: nat,
)
    requires
        depth > 0,
        e.name.len() > 0,
        record_name(s, utf32, e.offset as int) == Ok::<Seq<char>, GgpkError>(e.name),
        !may_contain(bundles_path(e.name), wanted),
    ensures
        found_nothing(in_entry(s, utf32, e, wanted, depth)),
{
    reveal(in_entry);
    lemma_bundles_path(e.name);
}

/// A path in the folder is below one name without a slash only.
proof fn lemma_below_one_entry(a: Seq<char>, b: Seq<char>, wanted: Seq<char>)
    requires
        a != b,
        !a.contains('/'),
        b.len() > 0,
        wanted == bundles_path(a) || !b.contains('/'),
        may_contain(bundles_path(a), wanted),
        a.len() > 0,
    ensures
        !may_contain(bundles_path(b), wanted),
{
    reveal_strlit("Bundles2/");
    let k: int = 9;
    let (x, y) = (bundles_path(a), bundles_path(b));
    let (m, n) = (a.len() as int, b.len() as int);
    assert(x.len() == k + m && y.len() == k + n);
    if may_contain(y, wanted) {
        assert(forall|i: int| 0 <= i < m ==> x[k + i] == #[trigger] a[i]);
        assert(forall|i: int| 0 <= i < n ==> y[k + i] == #[trigger] b[i]);
        assert(x.push('/')[k + m] == '/' && y.push('/')[k + n] == '/');
        assert forall|i: int| 0 <= i < k + m implies #[trigger] wanted[i] == x[i] by {
            if wanted != x {
                assert(wanted.subrange(0, k + m + 1)[i] == x.push('/')[i]);
            }
        }
        assert forall|i: int| 0 <= i < k + n implies #[trigger] wanted[i] == y[i] by {
            if wanted != y {
                assert(wanted.subrange(0, k + n + 1)[i] == y.push('/')[i]);
            }
        }
        if wanted != x {
            assert(wanted.subrange(0, k + m + 1)[k + m] == '/');
            assert(wanted[k + m] == '/');
        }
        if wanted != y {
            assert(wanted.subrange(0, k + n + 1)[k + n] == '/');
            assert(wanted[k + n] == '/');
        }
        if n < m {
            assert(wanted != y);
            assert(a[n] == wanted[k + n]);
            assert(false);
        }
        if m < n {
            assert(wanted != x);
            assert(b[m] == wanted[k + m]);
            assert(false);
        }
        assert forall|i: int| 0 <= i < m implies a[i] == b[i] by {
            assert(wanted[k + i] == x[k + i] && wanted[k + i] == y[k + i]);
        }
        assert(a =~= b);
    }
}

/// What is found in a table is held by one of its entries.
proof fn lemma_entry_that_holds(
    s: Seq<u8>,
    utf32: bool,
    pos: int,
    i: int,
    n: int,
    base: Seq<char>,
    wanted: Seq<char>,
    depth: nat,
) -> (k: int)
    requires
        found_file(file_in_children(s, utf32, pos, 12, i, n, base, wanted, depth)),
    ensures
        i <= k < n,
        file_below(s, utf32, u64_at(s, pos + 12 * k) as int, base, wanted, depth)
            == file_in_children(s, utf32, pos, 12, i, n, base, wanted, depth),
    decreases n - i,
{
    let r = file_below(s, utf32, u64_at(s, pos + 12 * i) as int, base, wanted, depth);
    if found_file(r) {
        i
    } else {
        lemma_entry_that_holds(s, utf32, pos, i + 1, n, base, wanted, depth)
    }
}

/// What stands behind the old pointer: the search there goes through the entries.
proof fn lemma_behind_old_pointer(
    s: Seq<u8>,
    t: Seq<u8>,
    utf32: bool,
    p: int,
    bundle_name: Seq<char>,
    bundle: Seq<u8>,
    index: Seq<u8>,
    wanted: Seq<char>,
    reached: nat,
) -> (k: int)
    requires
        patch_stands(s, t, utf32, p, bundle_name, bundle, index),
        may_contain("Bundles2"@, wanted),
        behind_pointer(s, utf32, p, wanted, reached) is Ok,
        bundles_folder(s, utf32).entries.len() > 0,
    ensures
        reached > 1,
        ({
            let entries = bundles_folder(s, utf32).entries;
            let below = (reached - 1) as nat;
            &&& forall|j: int|
                0 <= j < entries.len() ==> record_name(
                    s,
                    utf32,
                    (#[trigger] entries[j]).offset as int,
                ) == Ok::<Seq<char>, GgpkError>(entries[j].name)
            &&& found_file(behind_pointer(s, utf32, p, wanted, reached)) ==> {
                &&& 0 <= k < entries.len()
                &&& in_entry(s, utf32, entries[k], wanted, below) == behind_pointer(
                    s,
                    utf32,
                    p,
                    wanted,
                    reached,
                )
            }
        }),
{
    reveal(patch_stands);
    reveal(behind_pointer);
    reveal(in_entry);
    let folder = bundles_folder(s, utf32);
    let entries = folder.entries;
    let offset = folder.offset;
    let (name, end) = name_at(s, offset + 48, utf32)->Ok_0;
    let n = u32_at(s, offset + 12) as nat;
    let base = "Bundles2"@;
    assert(base.len() > 0) by {
        reveal_strlit("Bundles2");
    }
    assert(ggpk_path(Seq::empty(), name) == base);
    lemma_name_end(s, offset + 48, utf32);
    lemma_entry_count(s, utf32, end, n);
    let below = (reached - 1) as nat;
    let r = file_in_children(s, utf32, end + 4, 12, 0, n as int, base, wanted, below);
    assert(r == behind_pointer(s, utf32, p, wanted, reached));
    assert(file_below(s, utf32, u64_at(s, end + 4 + 12 * 0) as int, base, wanted, below) is Ok);
    assert forall|j: int| 0 <= j < entries.len() implies record_name(
        s,
        utf32,
        (#[trigger] entries[j]).offset as int,
    ) == Ok::<Seq<char>, GgpkError>(entries[j].name) by {
        lemma_entry_at(s, utf32, end, n, j);
    }
    if found_file(r) {
        let k = lemma_entry_that_holds(s, utf32, end + 4, 0, n as int, base, wanted, below);
        lemma_entry_at(s, utf32, end, n, k);
        k
    } else {
        0
    }
}

/// What the old folder says of one of its entries, where the search may go on for
/// `depth` records below it.
proof fn lemma_old_entry(
    s: Seq<u8>,
    t: Seq<u8>,
    utf32: bool,
    p: int,
    bundle_name: Seq<char>,
    bundle: Seq<u8>,
    index: Seq<u8>,
    wanted: Seq<char>,
    depth: nat,
    x: nat,
    j: int,
)
    requires
        patch_stands(s, t, utf32, p, bundle_name, bundle, index),
        may_contain("Bundles2"@, wanted),
        clear_of(s, utf32, p, u64_at(s, p) as int, Seq::empty(), (depth + 1) as nat),
        0 <= j < bundles_folder(s, utf32).entries.len(),
    ensures
        ({
            let e = bundles_folder(s, utf32).entries[j];
            &&& found_nothing(behind_pointer(s, utf32, p, wanted, (depth + 1) as nat))
                ==> found_nothing(in_entry(s, utf32, e, wanted, depth))
            &&& in_entry(s, utf32, e, wanted, depth) is Ok ==> in_entry(
                t,
                utf32,
                e,
                wanted,
                (depth + x) as nat,
            ) == in_entry(s, utf32, e, wanted, depth)
        }),
{
    assert(same_but_pointer(s, t, p) && stands_in(s, utf32, bundles_folder(s, utf32))
        && bundles_folder(s, utf32).name == "Bundles2"@ && u64_at(s, p) == bundles_folder(
        s,
        utf32,
    ).offset) by {
        reveal(patch_stands);
    }
    lemma_entry_of_folder(s, t, utf32, p, bundles_folder(s, utf32), wanted, depth, x, j);
}

proof fn lemma_entry_of_folder(
    s: Seq<u8>,
    t: Seq<u8>,
    utf32: bool,
    p: int,
    folder: PdirView,
    wanted: Seq<char>,
    depth: nat,
    x: nat,
    j: int,
)
    requires
        same_but_pointer(s, t, p),
        stands_in(s, utf32, folder),
        folder.name == "Bundles2"@,
        u64_at(s, p) == folder.offset,
        may_contain("Bundles2"@, wanted),
        clear_of(s, utf32, p, folder.offset, Seq::empty(), (depth + 1) as nat),
        0 <= j < folder.entries.len(),
    ensures
        found_nothing(behind_pointer(s, utf32, p, wanted, (depth + 1) as nat)) ==> found_nothing(
            in_entry(s, utf32, folder.entries[j], wanted, depth),
        ),
        in_entry(s, utf32, folder.entries[j], wanted, depth) is Ok ==> in_entry(
            t,
            utf32,
            folder.entries[j],
            wanted,
            (depth + x) as nat,
        ) == in_entry(s, utf32, folder.entries[j], wanted, depth),
{
    reveal(in_entry);
    reveal(behind_pointer);
    let offset = folder.offset;
    let (name, end) = name_at(s, offset + 48, utf32)->Ok_0;
    let n = u32_at(s, offset + 12) as nat;
    let base = "Bundles2"@;
    lemma_name_end(s, offset + 48, utf32);
    assert(base.len() > 0) by {
        reveal_strlit("Bundles2");
    }
    assert(ggpk_path(Seq::empty(), name) == base);
    lemma_entry_count(s, utf32, end, n);
    lemma_entry_at(s, utf32, end, n, j);
    let e = folder.entries[j];
    lemma_clear_in_table(s, utf32, p, end + 4, 0, n as int, base, depth, j);
    if found_nothing(behind_pointer(s, utf32, p, wanted, (depth + 1) as nat)) {
        lemma_nothing_in_table(s, utf32, end + 4, 0, n as int, base, wanted, depth, j);
    }
    if in_entry(s, utf32, e, wanted, depth) is Ok {
        lemma_no_pointer_below(s, utf32, p, e.offset as int, base, wanted, depth);
        lemma_same_search(s, t, utf32, p, e.offset as int, base, wanted, depth, x);
    }
}

/// The entries of the new folder record before they are ordered.
pub open spec fn unordered_entries(
    entries: Seq<EntryView>,
    bundle_name: Seq<char>,
    index_at: u64,
    bundle_at: u64,
) -> Seq<EntryView> {
    repointed(entries, index_at).push(
        EntryView {
            name: custom_file_name(bundle_name),
            name_hash: name_hash_of(custom_file_name(bundle_name)),
            offset: bundle_at,
        },
    )
}

/// The entries of the new folder record of an archive before they are ordered.
pub open spec fn new_entries(
    s: Seq<u8>,
    utf32: bool,
    bundle_name: Seq<char>,
    index: Seq<u8>,
) -> Seq<EntryView> {
    unordered_entries(
        bundles_folder(s, utf32).entries,
        bundle_name,
        s.len() as u64,
        new_bundle_at(s, utf32, index) as u64,
    )
}

/// Where the `k`th of the unordered entries comes; those before it in the table
/// come before it by their hashes.
proof fn lemma_place_of_entry(
    entries: Seq<EntryView>,
    bundle_name: Seq<char>,
    index_at: u64,
    bundle_at: u64,
    k: int,
) -> (i: int)
    requires
        0 <= k <= entries.len(),
    ensures
        ({
            let all = unordered_entries(entries, bundle_name, index_at, bundle_at);
            let listed = patched_entries(entries, bundle_name, index_at, bundle_at);
            let order = stable_order(entry_keys(all));
            &&& listed == picked(all, order)
            &&& listed.len() == all.len()
            &&& 0 <= i < listed.len()
            &&& order[i] == k
            &&& forall|j: int| 0 <= j < listed.len() ==> 0 <= #[trigger] order[j] < all.len()
            &&& forall|j: int|
                0 <= j < i && #[trigger] order[j] < entries.len() && k < entries.len()
                    ==> comes_before(entry_keys(entries), order[j], k)
        }),
{
    let all = unordered_entries(entries, bundle_name, index_at, bundle_at);
    let keys = entry_keys(all);
    lemma_stable_order_exists(keys);
    let order = stable_order(keys);
    assert(order.contains(k));
    let i = choose|i: int| 0 <= i < order.len() && order[i] == k;
    assert forall|j: int|
        0 <= j < i && #[trigger] order[j] < entries.len() && k < entries.len() implies comes_before(
        entry_keys(entries),
        order[j],
        k,
    ) by {
        assert(comes_before(keys, order[j], order[i]));
        assert(keys[order[j]] == entry_keys(entries)[order[j]]);
        assert(keys[k] == entry_keys(entries)[k]);
    }
    i
}

/// What is found in the `q`th of the unordered entries after the patch.
proof fn lemma_new_entry(
    s: Seq<u8>,
    t: Seq<u8>,
    utf32: bool,
    p: int,
    bundle_name: Seq<char>,
    bundle: Seq<u8>,
    index: Seq<u8>,
    wanted: Seq<char>,
    depth: nat,
    x: nat,
    q: int,
)
    requires
        patch_stands(s, t, utf32, p, bundle_name, bundle, index),
        no_nul(bundle_name),
        may_contain("Bundles2"@, wanted),
        clear_of(s, utf32, p, u64_at(s, p) as int, Seq::empty(), (depth + 1) as nat),
        x > 0,
        0 <= q <= bundles_folder(s, utf32).entries.len(),
    ensures
        ({
            let entries = bundles_folder(s, utf32).entries;
            let all = new_entries(s, utf32, bundle_name, index);
            let r = in_entry(t, utf32, all[q], wanted, (depth + x) as nat);
            if q == entries.len() {
                if wanted == bundles_path(custom_file_name(bundle_name)) {
                    r == Ok::<Option<(int, int)>, GgpkError>(
                        Some((new_bundle_begin(s, utf32, bundle_name, index), bundle.len() as int)),
                    )
                } else {
                    found_nothing(r)
                }
            } else if is_index_name(entries[q].name) {
                if wanted == bundles_path("_.index.bin"@) {
                    r == Ok::<Option<(int, int)>, GgpkError>(
                        Some((new_index_begin(s, utf32), index.len() as int)),
                    )
                } else {
                    found_nothing(r)
                }
            } else {
                in_entry(s, utf32, entries[q], wanted, depth) is Ok ==> r == in_entry(
                    s,
                    utf32,
                    entries[q],
                    wanted,
                    depth,
                )
            }
        }),
{
    let entries = bundles_folder(s, utf32).entries;
    let file_name = custom_file_name(bundle_name);
    let d = (depth + x) as nat;
    if q == entries.len() {
        assert(no_nul(file_name)) by {
            reveal_strlit(".bundle.bin");
        }
        lemma_new_names_differ(bundle_name);
        reveal(patch_stands);
        let at = new_bundle_at(s, utf32, index);
        lemma_in_file_record(t, at, file_name, bundle, utf32, wanted, d);
    } else if is_index_name(entries[q].name) {
        assert(no_nul("_.index.bin"@) && "_.index.bin"@.len() > 0) by {
            reveal_strlit("_.index.bin");
        }
        reveal(patch_stands);
        lemma_in_file_record(t, s.len() as int, "_.index.bin"@, index, utf32, wanted, d);
    } else {
        lemma_old_entry(s, t, utf32, p, bundle_name, bundle, index, wanted, depth, x, q);
    }
}

/// What is found in the record of a file in the folder.
proof fn lemma_in_file_record(
    t: Seq<u8>,
    at: int,
    name: Seq<char>,
    data: Seq<u8>,
    utf32: bool,
    wanted: Seq<char>,
    depth: nat,
)
    requires
        depth > 0,
        no_nul(name),
        name.len() > 0,
        at <= u64::MAX,
        file_record(name, data, utf32) is Ok,
        holds_at(t, at, file_record(name, data, utf32)->Ok_0),
    ensures
        ({
            let begin = at + 44 + name_bytes(name, utf32).len();
            &&& t.subrange(begin, begin + data.len()) == data
            &&& forall|e: EntryView|
                e.offset == at as u64 ==> #[trigger] in_entry(t, utf32, e, wanted, depth) == (
                if wanted == bundles_path(name) {
                    Ok::<Option<(int, int)>, GgpkError>(Some((begin, data.len() as int)))
                } else {
                    Ok::<Option<(int, int)>, GgpkError>(None)
                })
        }),
{
    reveal(in_entry);
    lemma_bundles_path(name);
    law_file_record_is_found(t, at, name, data, utf32, "Bundles2"@, depth);
    let r = file_below(t, utf32, at, "Bundles2"@, wanted, depth);
    if wanted != bundles_path(name) {
        assert(r == Ok::<Option<(int, int)>, GgpkError>(None));
    }
}

/// Where the data of the new index begins.
pub open spec fn new_index_begin(s: Seq<u8>, utf32: bool) -> int {
    s.len() as int + 44 + name_bytes("_.index.bin"@, utf32).len()
}

/// Where the data of the new bundle begins.
pub open spec fn new_bundle_begin(
    s: Seq<u8>,
    utf32: bool,
    bundle_name: Seq<char>,
    index: Seq<u8>,
) -> int {
    new_bundle_at(s, utf32, index) + 44 + name_bytes(custom_file_name(bundle_name), utf32).len()
}

/// What is found in a table.
#[verifier::opaque]
pub open spec fn in_table(
    t: Seq<u8>,
    utf32: bool,
    table_at: int,
    n: int,
    wanted: Seq<char>,
    depth: nat,
) -> Result<Option<(int, int)>, GgpkError> {
    file_in_children(t, utf32, table_at + 4, 12, 0, n, "Bundles2"@, wanted, depth)
}

/// The entries of the new folder record in their order.
pub open spec fn listed_entries(
    s: Seq<u8>,
    utf32: bool,
    bundle_name: Seq<char>,
    index: Seq<u8>,
) -> Seq<EntryView> {
    patched_entries(
        bundles_folder(s, utf32).entries,
        bundle_name,
        s.len() as u64,
        new_bundle_at(s, utf32, index) as u64,
    )
}

/// The new pointer leads to the new folder record.
proof fn lemma_new_folder(
    s: Seq<u8>,
    t: Seq<u8>,
    utf32: bool,
    p: int,
    bundle_name: Seq<char>,
    bundle: Seq<u8>,
    index: Seq<u8>,
    wanted: Seq<char>,
    depth: nat,
) -> (table_at: int)
    requires
        patch_stands(s, t, utf32, p, bundle_name, bundle, index),
    ensures
        ({
            let listed = listed_entries(s, utf32, bundle_name, index);
            &&& holds_at(t, table_at, crate::ggpk_patch::entry_table(listed, listed.len()))
            &&& behind_pointer(t, utf32, p, wanted, (depth + 1) as nat) == (if may_contain(
                "Bundles2"@,
                wanted,
            ) {
                in_table(t, utf32, table_at, listed.len() as int, wanted, depth)
            } else {
                Ok::<Option<(int, int)>, GgpkError>(None)
            })
        }),
{
    reveal(patch_stands);
    reveal(behind_pointer);
    reveal(in_table);
    let folder = bundles_folder(s, utf32);
    let listed = listed_entries(s, utf32, bundle_name, index);
    let base = "Bundles2"@;
    let at = u64_at(t, p) as int;
    assert(no_nul(base)) by {
        reveal_strlit("Bundles2");
    }
    assert(ggpk_path(Seq::empty(), base) == base);
    lemma_folder_record(
        t,
        at,
        base,
        folder.digest,
        listed,
        utf32,
        Seq::empty(),
        wanted,
        depth,
    );
    at + 48 + name_bytes(base, utf32).len()
}

/// A table leads to what an entry holds, if those before it hold nothing or the
/// same.
proof fn lemma_table_finds(
    t: Seq<u8>,
    utf32: bool,
    table_at: int,
    listed: Seq<EntryView>,
    i: int,
    wanted: Seq<char>,
    depth: nat,
)
    requires
        holds_at(t, table_at, crate::ggpk_patch::entry_table(listed, listed.len())),
        0 <= i < listed.len(),
        found_file(in_entry(t, utf32, listed[i], wanted, depth)),
        forall|j: int|
            0 <= j < i ==> {
                let r = in_entry(t, utf32, #[trigger] listed[j], wanted, depth);
                found_nothing(r) || r == in_entry(t, utf32, listed[i], wanted, depth)
            },
    ensures
        in_table(t, utf32, table_at, listed.len() as int, wanted, depth) == in_entry(
            t,
            utf32,
            listed[i],
            wanted,
            depth,
        ),
{
    reveal(in_entry);
    reveal(in_table);
    let base = "Bundles2"@;
    assert forall|j: int| 0 <= j < i implies {
        let r = file_below(t, utf32, (#[trigger] listed[j]).offset as int, base, wanted, depth);
        r == Ok::<Option<(int, int)>, GgpkError>(None) || r == file_below(
            t,
            utf32,
            listed[i].offset as int,
            base,
            wanted,
            depth,
        )
    } by {
        assert(found_nothing(in_entry(t, utf32, listed[j], wanted, depth)) || in_entry(
            t,
            utf32,
            listed[j],
            wanted,
            depth,
        ) == in_entry(t, utf32, listed[i], wanted, depth));
    }
    lemma_found_in_table(t, utf32, table_at, listed, 0, i, base, wanted, depth);
}

proof fn lemma_table_holds_nothing(
    t: Seq<u8>,
    utf32: bool,
    table_at: int,
    listed: Seq<EntryView>,
    wanted: Seq<char>,
    depth: nat,
)
    requires
        holds_at(t, table_at, crate::ggpk_patch::entry_table(listed, listed.len())),
        forall|j: int|
            0 <= j < listed.len() ==> found_nothing(
                in_entry(t, utf32, #[trigger] listed[j], wanted, depth),
            ),
    ensures
        found_nothing(in_table(t, utf32, table_at, listed.len() as int, wanted, depth)),
{
    reveal(in_entry);
    reveal(in_table);
    let base = "Bundles2"@;
    assert forall|j: int| 0 <= j < listed.len() implies file_below(
        t,
        utf32,
        (#[trigger] listed[j]).offset as int,
        base,
        wanted,
        depth,
    ) == Ok::<Option<(int, int)>, GgpkError>(None) by {
        assert(found_nothing(in_entry(t, utf32, listed[j], wanted, depth)));
    }
    lemma_not_in_table(t, utf32, table_at, listed, 0, base, wanted, depth);
}

/// The new folder leads to what its `k`th unordered entry holds, if the entries
/// that come before it hold nothing or the same.
proof fn lemma_new_folder_finds(
    s: Seq<u8>,
    t: Seq<u8>,
    utf32: bool,
    p: int,
    bundle_name: Seq<char>,
    bundle: Seq<u8>,
    index: Seq<u8>,
    wanted: Seq<char>,
    depth: nat,
    k: int,
)
    requires
        patch_stands(s, t, utf32, p, bundle_name, bundle, index),
        may_contain("Bundles2"@, wanted),
        0 <= k <= bundles_folder(s, utf32).entries.len(),
        ({
            let entries = bundles_folder(s, utf32).entries;
            let all = new_entries(s, utf32, bundle_name, index);
            let found = in_entry(t, utf32, all[k], wanted, depth);
            &&& found_file(found)
            &&& forall|q: int|
                0 <= q < all.len() && (q < entries.len() && k < entries.len() ==> comes_before(
                    entry_keys(entries),
                    q,
                    k,
                )) ==> {
                    let r = #[trigger] in_entry(t, utf32, all[q], wanted, depth);
                    found_nothing(r) || r == found
                }
        }),
    ensures
        ({
            let entries = bundles_folder(s, utf32).entries;
            let all = new_entries(s, utf32, bundle_name, index);
            behind_pointer(t, utf32, p, wanted, (depth + 1) as nat) == in_entry(
                t,
                utf32,
                all[k],
                wanted,
                depth,
            )
        }),
{
    let entries = bundles_folder(s, utf32).entries;
    let bundle_at = new_bundle_at(s, utf32, index) as u64;
    let all = new_entries(s, utf32, bundle_name, index);
    let listed = listed_entries(s, utf32, bundle_name, index);
    let order = stable_order(entry_keys(all));
    let i = lemma_place_of_entry(entries, bundle_name, s.len() as u64, bundle_at, k);
    let table_at = lemma_new_folder(s, t, utf32, p, bundle_name, bundle, index, wanted, depth);
    assert(listed[i] == all[k]);
    assert forall|j: int| 0 <= j < i implies {
        let r = in_entry(t, utf32, #[trigger] listed[j], wanted, depth);
        found_nothing(r) || r == in_entry(t, utf32, listed[i], wanted, depth)
    } by {
        let q = order[j];
        assert(listed[j] == all[q]);
        assert(q < entries.len() && k < entries.len() ==> comes_before(entry_keys(entries), q, k));
    }
    lemma_table_finds(t, utf32, table_at, listed, i, wanted, depth);
}

/// Where nothing was in the old folder, nothing is in the new one, but for the new
/// files.
proof fn lemma_new_folder_holds_nothing(
    s: Seq<u8>,
    t: Seq<u8>,
    utf32: bool,
    p: int,
    bundle_name: Seq<char>,
    bundle: Seq<u8>,
    index: Seq<u8>,
    wanted: Seq<char>,
    x: nat,
    e: nat,
)
    requires
        patch_stands(s, t, utf32, p, bundle_name, bundle, index),
        no_nul(bundle_name),
        x > 0,
        wanted != bundles_path("_.index.bin"@),
        wanted != bundles_path(custom_file_name(bundle_name)),
        found_nothing(behind_pointer(s, utf32, p, wanted, e)),
        clear_of(s, utf32, p, u64_at(s, p) as int, Seq::empty(), e),
    ensures
        found_nothing(behind_pointer(t, utf32, p, wanted, (e + x) as nat)),
{
    let entries = bundles_folder(s, utf32).entries;
    let bundle_at = new_bundle_at(s, utf32, index) as u64;
    let all = new_entries(s, utf32, bundle_name, index);
    let listed = listed_entries(s, utf32, bundle_name, index);
    let order = stable_order(entry_keys(all));
    assert(e > 0) by {
        reveal(behind_pointer);
    }
    let old_depth = (e - 1) as nat;
    let depth = (old_depth + x) as nat;
    assert(depth + 1 == e + x);
    assert(old_depth + 1 == e);
    let table_at = lemma_new_folder(s, t, utf32, p, bundle_name, bundle, index, wanted, depth);
    if may_contain("Bundles2"@, wanted) {
        let i = lemma_place_of_entry(
            entries,
            bundle_name,
            s.len() as u64,
            bundle_at,
            entries.len() as int,
        );
        assert forall|j: int| 0 <= j < listed.len() implies found_nothing(
            in_entry(t, utf32, #[trigger] listed[j], wanted, depth),
        ) by {
            let q = order[j];
            assert(listed[j] == all[q]);
            lemma_new_entry(
                s,
                t,
                utf32,
                p,
                bundle_name,
                bundle,
                index,
                wanted,
                old_depth,
                x,
                q,
            );
            if q < entries.len() {
                lemma_old_entry(
                    s,
                    t,
                    utf32,
                    p,
                    bundle_name,
                    bundle,
                    index,
                    wanted,
                    old_depth,
                    x,
                    q,
                );
            }
        }
        lemma_table_holds_nothing(t, utf32, table_at, listed, wanted, depth);
    }
}

/// How much deeper a search of the patched archive may go.
proof fn lemma_depth_grows(n: nat, more: nat, wanted_len: nat) -> (x: nat)
    requires
        more > 0,
    ensures
        depth_bound(n + more, wanted_len) == depth_bound(n, wanted_len) + x,
        x > 0,
{
    let x = more * (wanted_len + 1);
    assert((n + more) * (wanted_len + 1) == n * (wanted_len + 1) + more * (wanted_len + 1))
        by (nonlinear_arith);
    assert(more * (wanted_len + 1) > 0) by (nonlinear_arith)
        requires
            more > 0,
    ;
    x
}

/// Whether the archive is clear of the pointer that a patch turns, as far as the
/// search for `wanted` goes.
pub open spec fn archive_clear(s: Seq<u8>, utf32: bool, p: int, wanted: Seq<char>) -> bool {
    clear_of(s, utf32, p, 0, Seq::empty(), depth_bound(s.len(), wanted.len()))
}

/// Where the search for `wanted` in the archive comes to the pointer at `p`
/// without having found anything: how many records deep it may still go.
pub open spec fn reaches_pointer(s: Seq<u8>, utf32: bool, p: int, wanted: Seq<char>) -> Option<
    nat,
> {
    depth_at_pointer(s, utf32, p, 0, Seq::empty(), wanted, depth_bound(s.len(), wanted.len()))
}

/// Whether all entries of the folder `Bundles2` have a name.
pub open spec fn entries_are_named(s: Seq<u8>, utf32: bool) -> bool {
    let entries = bundles_folder(s, utf32).entries;
    forall|j: int| 0 <= j < entries.len() ==> (#[trigger] entries[j]).name.len() > 0
}

/// After a patch the path of the index leads to the new index, if the search for it
/// went through before. `archive_clear`: no record lies on the pointer that is turned;
/// `flat_at_top`: no name at the top of the archive holds a slash.
pub proof fn law_patched_archive_gives_the_new_index(
    s: Seq<u8>,
    utf32: bool,
    bundle_name: Seq<char>,
    bundle: Seq<u8>,
    index: Seq<u8>,
    plan: PlanView,
)
    requires
        s.len() <= u64::MAX,
        patch_plan(s, utf32, s.len() as u64, bundle_name, bundle, index) == Ok::<
            PlanView,
            GgpkError,
        >(plan),
        no_nul(bundle_name),
        ({
            let p = plan.backup.bundles2_offset_pos as int;
            let wanted = bundles_path("_.index.bin"@);
            &&& file_in(s, utf32, wanted) is Ok
            &&& archive_clear(s, utf32, p, wanted)
            &&& flat_at_top(s, utf32, 0, depth_bound(s.len(), wanted.len()))
            &&& entries_are_named(s, utf32)
        }),
    ensures
        ({
            let t = patched_archive(s, plan);
            let begin = new_index_begin(s, utf32);
            &&& file_in(t, utf32, bundles_path("_.index.bin"@)) == Ok::<
                Option<(int, int)>,
                GgpkError,
            >(Some((begin, index.len() as int)))
            &&& t.subrange(begin, begin + index.len()) == index
        }),
{
    let p = plan.backup.bundles2_offset_pos as int;
    let t = patched_archive(s, plan);
    let wanted = bundles_path("_.index.bin"@);
    lemma_patch_stands(s, utf32, bundle_name, bundle, index, plan);
    lemma_stands_apart(s, t, utf32, p, bundle_name, bundle, index);
    let x = lemma_depth_grows(s.len(), plan.append_bytes.len(), wanted.len());
    let old_depth = depth_bound(s.len(), wanted.len());
    lemma_index_path();
    lemma_comes_to_pointer(
        s,
        utf32,
        p,
        0,
        "Bundles2"@,
        None,
        depth_bound(s.len(), "Bundles2"@.len()),
        wanted,
        old_depth,
    );
    lemma_at_pointer(s, utf32, p, 0, Seq::empty(), wanted, old_depth);
    let reached = reaches_pointer(s, utf32, p, wanted)->0;
    let k = lemma_folder_has_index(s, utf32, bundle_name, bundle, index);
    let left = lemma_index_stands_alone(s, t, utf32, p, bundle_name, bundle, index, reached);
    lemma_index_in_new_folder(s, t, utf32, p, bundle_name, bundle, index, left, x, k);
    lemma_found_behind_pointer(s, t, utf32, p, 0, Seq::empty(), wanted, old_depth, x);
}

/// No entry but those of the index holds the path of the index.
proof fn lemma_index_stands_alone(
    s: Seq<u8>,
    t: Seq<u8>,
    utf32: bool,
    p: int,
    bundle_name: Seq<char>,
    bundle: Seq<u8>,
    index: Seq<u8>,
    reached: nat,
) -> (left: nat)
    requires
        patch_stands(s, t, utf32, p, bundle_name, bundle, index),
        entries_are_named(s, utf32),
        bundles_folder(s, utf32).entries.len() > 0,
        behind_pointer(s, utf32, p, bundles_path("_.index.bin"@), reached) is Ok,
    ensures
        reached == left + 1,
        ({
            let entries = bundles_folder(s, utf32).entries;
            forall|j: int|
                0 <= j < entries.len() && !is_index_name((#[trigger] entries[j]).name)
                    ==> found_nothing(
                    in_entry(s, utf32, entries[j], bundles_path("_.index.bin"@), left),
                )
        }),
{
    let wanted = bundles_path("_.index.bin"@);
    let entries = bundles_folder(s, utf32).entries;
    lemma_index_path();
    lemma_behind_old_pointer(
        s,
        t,
        utf32,
        p,
        bundle_name,
        bundle,
        index,
        wanted,
        reached,
    );
    let left = (reached - 1) as nat;
    assert forall|j: int|
        0 <= j < entries.len() && !is_index_name((#[trigger] entries[j]).name) implies found_nothing(
        in_entry(s, utf32, entries[j], wanted, left),
    ) by {
        lemma_below_one_entry("_.index.bin"@, entries[j].name, wanted);
        lemma_entry_without_path(s, utf32, entries[j], wanted, left);
    }
    left
}

proof fn lemma_index_path()
    ensures
        !"Bundles2"@.contains('/'),
        starts_with(bundles_path("_.index.bin"@), "Bundles2"@.push('/')),
        may_contain("Bundles2"@, bundles_path("_.index.bin"@)),
        !"_.index.bin"@.contains('/'),
        "_.index.bin"@.len() > 0,
{
    reveal_strlit("Bundles2");
    reveal_strlit("Bundles2/");
    reveal_strlit("_.index.bin");
    assert("Bundles2"@.push('/') =~= "Bundles2/"@);
    assert(bundles_path("_.index.bin"@).subrange(0, 9) =~= "Bundles2/"@);
}

proof fn lemma_stands_apart(
    s: Seq<u8>,
    t: Seq<u8>,
    utf32: bool,
    p: int,
    bundle_name: Seq<char>,
    bundle: Seq<u8>,
    index: Seq<u8>,
)
    requires
        patch_stands(s, t, utf32, p, bundle_name, bundle, index),
    ensures
        same_but_pointer(s, t, p),
{
    reveal(patch_stands);
}

/// The new folder leads to the new index.
proof fn lemma_index_in_new_folder(
    s: Seq<u8>,
    t: Seq<u8>,
    utf32: bool,
    p: int,
    bundle_name: Seq<char>,
    bundle: Seq<u8>,
    index: Seq<u8>,
    left: nat,
    x: nat,
    k: int,
)
    requires
        patch_stands(s, t, utf32, p, bundle_name, bundle, index),
        no_nul(bundle_name),
        x > 0,
        clear_of(s, utf32, p, u64_at(s, p) as int, Seq::empty(), (left + 1) as nat),
        ({
            let wanted = bundles_path("_.index.bin"@);
            let entries = bundles_folder(s, utf32).entries;
            &&& 0 <= k < entries.len()
            &&& is_index_name(entries[k].name)
            &&& forall|j: int|
                0 <= j < entries.len() && comes_before(entry_keys(entries), j, k)
                    && !is_index_name((#[trigger] entries[j]).name) ==> found_nothing(
                    in_entry(s, utf32, entries[j], wanted, left),
                )
        }),
    ensures
        ({
            let begin = new_index_begin(s, utf32);
            &&& behind_pointer(
                t,
                utf32,
                p,
                bundles_path("_.index.bin"@),
                (left + 1 + x) as nat,
            ) == Ok::<Option<(int, int)>, GgpkError>(Some((begin, index.len() as int)))
            &&& t.subrange(begin, begin + index.len()) == index
        }),
{
    let wanted = bundles_path("_.index.bin"@);
    let entries = bundles_folder(s, utf32).entries;
    assert(no_nul("_.index.bin"@) && "_.index.bin"@.len() > 0) by {
        reveal_strlit("_.index.bin");
    }
    lemma_bundles_path("_.index.bin"@);
    let d = (left + x) as nat;
    let all = new_entries(s, utf32, bundle_name, index);
    lemma_new_entry(s, t, utf32, p, bundle_name, bundle, index, wanted, left, x, k);
    let found = in_entry(t, utf32, all[k], wanted, d);
    lemma_new_names_differ(bundle_name);
    assert forall|q: int|
        0 <= q < all.len() && (q < entries.len() && k < entries.len() ==> comes_before(
            entry_keys(entries),
            q,
            k,
        )) implies {
        let r = #[trigger] in_entry(t, utf32, all[q], wanted, d);
        found_nothing(r) || r == found
    } by {
        lemma_new_entry(s, t, utf32, p, bundle_name, bundle, index, wanted, left, x, q);
        if q < entries.len() && !is_index_name(entries[q].name) {
            assert(found_nothing(in_entry(s, utf32, entries[q], wanted, left)));
        }
    }
    lemma_new_folder_finds(s, t, utf32, p, bundle_name, bundle, index, wanted, d, k);
    assert(d + 1 == left + 1 + x);
    assert(t.subrange(
        new_index_begin(s, utf32),
        new_index_begin(s, utf32) + index.len(),
    ) == index) by {
        reveal(patch_stands);
        lemma_in_file_record(t, s.len() as int, "_.index.bin"@, index, utf32, wanted, 1);
    }
}

proof fn lemma_new_names_differ(bundle_name: Seq<char>)
    ensures
        bundles_path("_.index.bin"@) != bundles_path(custom_file_name(bundle_name)),
        custom_file_name(bundle_name).len() > 0,
{
    reveal_strlit("_.index.bin");
    reveal_strlit(".bundle.bin");
    let a = bundles_path("_.index.bin"@);
    let b = bundles_path(custom_file_name(bundle_name));
    let n = "Bundles2/"@.len();
    if a == b {
        assert(a.len() == n + 11);
        assert(b.len() == n + bundle_name.len() + 11);
        assert(a[n as int] == '_');
        assert(b[n as int] == '.');
    }
}

/// After a patch the path of the new bundle leads to the new bundle, if the archive
/// did not hold that path before.
pub proof fn law_patched_archive_gives_the_new_bundle(
    s: Seq<u8>,
    utf32: bool,
    bundle_name: Seq<char>,
    bundle: Seq<u8>,
    index: Seq<u8>,
    plan: PlanView,
)
    requires
        s.len() <= u64::MAX,
        patch_plan(s, utf32, s.len() as u64, bundle_name, bundle, index) == Ok::<
            PlanView,
            GgpkError,
        >(plan),
        no_nul(bundle_name),
        ({
            let p = plan.backup.bundles2_offset_pos as int;
            let wanted = bundles_path(custom_file_name(bundle_name));
            &&& archive_clear(s, utf32, p, wanted)
            &&& found_nothing(file_in(s, utf32, wanted))
        }),
    ensures
        ({
            let t = patched_archive(s, plan);
            let begin = new_bundle_begin(s, utf32, bundle_name, index);
            &&& file_in(t, utf32, bundles_path(custom_file_name(bundle_name))) == Ok::<
                Option<(int, int)>,
                GgpkError,
            >(Some((begin, bundle.len() as int)))
            &&& t.subrange(begin, begin + bundle.len()) == bundle
        }),
{
    let p = plan.backup.bundles2_offset_pos as int;
    let t = patched_archive(s, plan);
    let wanted = bundles_path(custom_file_name(bundle_name));
    lemma_patch_stands(s, utf32, bundle_name, bundle, index, plan);
    lemma_stands_apart(s, t, utf32, p, bundle_name, bundle, index);
    let x = lemma_depth_grows(s.len(), plan.append_bytes.len(), wanted.len());
    let old_depth = depth_bound(s.len(), wanted.len());
    assert(!"Bundles2"@.contains('/')) by {
        reveal_strlit("Bundles2");
    }
    lemma_comes_to_pointer(
        s,
        utf32,
        p,
        0,
        "Bundles2"@,
        None,
        depth_bound(s.len(), "Bundles2"@.len()),
        wanted,
        old_depth,
    );
    lemma_at_pointer(s, utf32, p, 0, Seq::empty(), wanted, old_depth);
    let reached = reaches_pointer(s, utf32, p, wanted)->0;
    lemma_bundle_in_new_folder(s, t, utf32, p, bundle_name, bundle, index, reached, x);
    lemma_found_behind_pointer(s, t, utf32, p, 0, Seq::empty(), wanted, old_depth, x);
}

/// The new folder leads to the new bundle.
proof fn lemma_bundle_in_new_folder(
    s: Seq<u8>,
    t: Seq<u8>,
    utf32: bool,
    p: int,
    bundle_name: Seq<char>,
    bundle: Seq<u8>,
    index: Seq<u8>,
    reached: nat,
    x: nat,
)
    requires
        patch_stands(s, t, utf32, p, bundle_name, bundle, index),
        no_nul(bundle_name),
        x > 0,
        clear_of(s, utf32, p, u64_at(s, p) as int, Seq::empty(), reached),
        found_nothing(
            behind_pointer(s, utf32, p, bundles_path(custom_file_name(bundle_name)), reached),
        ),
    ensures
        ({
            let begin = new_bundle_begin(s, utf32, bundle_name, index);
            &&& behind_pointer(
                t,
                utf32,
                p,
                bundles_path(custom_file_name(bundle_name)),
                (reached + x) as nat,
            ) == Ok::<Option<(int, int)>, GgpkError>(Some((begin, bundle.len() as int)))
            &&& t.subrange(begin, begin + bundle.len()) == bundle
        }),
{
    let file_name = custom_file_name(bundle_name);
    let wanted = bundles_path(file_name);
    let entries = bundles_folder(s, utf32).entries;
    lemma_new_names_differ(bundle_name);
    lemma_bundles_path(file_name);
    assert(reached > 0) by {
        reveal(behind_pointer);
    }
    let left = (reached - 1) as nat;
    let d = (left + x) as nat;
    let all = new_entries(s, utf32, bundle_name, index);
    let k = entries.len() as int;
    lemma_new_entry(s, t, utf32, p, bundle_name, bundle, index, wanted, left, x, k);
    let found = in_entry(t, utf32, all[k], wanted, d);
    assert forall|q: int|
        0 <= q < all.len() && (q < entries.len() && k < entries.len() ==> comes_before(
            entry_keys(entries),
            q,
            k,
        )) implies {
        let r = #[trigger] in_entry(t, utf32, all[q], wanted, d);
        found_nothing(r) || r == found
    } by {
        lemma_new_entry(s, t, utf32, p, bundle_name, bundle, index, wanted, left, x, q);
        if q < entries.len() {
            lemma_old_entry(s, t, utf32, p, bundle_name, bundle, index, wanted, left, x, q);
        }
    }
    lemma_new_folder_finds(s, t, utf32, p, bundle_name, bundle, index, wanted, d, k);
    assert(d + 1 == reached + x);
    let at = new_bundle_at(s, utf32, index);
    let begin = new_bundle_begin(s, utf32, bundle_name, index);
    assert(no_nul(file_name)) by {
        reveal_strlit(".bundle.bin");
    }
    assert(t.subrange(begin, begin + bundle.len()) == bundle) by {
        reveal(patch_stands);
        lemma_in_file_record(t, at, file_name, bundle, utf32, wanted, 1);
    }
}

/// Whether the `k`th entry of the folder holds what is found in the folder, is not
/// an entry of the index, and stays the first one to hold the path when the entries
/// are ordered by their hashes.
pub open spec fn stays_first(
    s: Seq<u8>,
    utf32: bool,
    p: int,
    wanted: Seq<char>,
    left: nat,
    k: int,
) -> bool {
    let entries = bundles_folder(s, utf32).entries;
    let below = (left - 1) as nat;
    &&& 0 <= k < entries.len()
    &&& !is_index_name(entries[k].name)
    &&& in_entry(s, utf32, entries[k], wanted, below) == behind_pointer(s, utf32, p, wanted, left)
    &&& forall|j: int|
        0 <= j < entries.len() && comes_before(entry_keys(entries), j, k) && !is_index_name(
            (#[trigger] entries[j]).name,
        ) ==> found_nothing(in_entry(s, utf32, entries[j], wanted, below))
}

/// Whether the names in the folder `Bundles2` are those of a folder: none is empty,
/// none holds a slash, and no two are the same.
pub open spec fn names_are_sound(s: Seq<u8>, utf32: bool) -> bool {
    let entries = bundles_folder(s, utf32).entries;
    &&& forall|j: int|
        0 <= j < entries.len() ==> (#[trigger] entries[j]).name.len() > 0
            && !entries[j].name.contains('/')
    &&& forall|i: int, j: int|
        0 <= i < j < entries.len() ==> (#[trigger] entries[i]).name != (
        #[trigger] entries[j]).name
}

/// Whether what has the name of the index in the folder `Bundles2`, in any case, is
/// the file `_.index.bin`.
pub open spec fn index_is_a_file(s: Seq<u8>, utf32: bool) -> bool {
    let entries = bundles_folder(s, utf32).entries;
    forall|j: int|
        0 <= j < entries.len() && is_index_name((#[trigger] entries[j]).name) ==> {
            let offset = entries[j].offset as int;
            &&& entries[j].name == "_.index.bin"@
            &&& tag_of(s.subrange(offset + 4, offset + 8)) == Ok::<RecordTag, GgpkError>(
                RecordTag::File,
            )
        }
}

/// The file of the index holds no other path.
proof fn lemma_index_holds_nothing_else(
    s: Seq<u8>,
    utf32: bool,
    e: EntryView,
    wanted: Seq<char>,
    depth: nat,
)
    requires
        depth > 0,
        e.name == "_.index.bin"@,
        record_name(s, utf32, e.offset as int) == Ok::<Seq<char>, GgpkError>(e.name),
        tag_of(s.subrange(e.offset + 4, e.offset + 8)) == Ok::<RecordTag, GgpkError>(
            RecordTag::File,
        ),
        wanted != bundles_path("_.index.bin"@),
    ensures
        found_nothing(in_entry(s, utf32, e, wanted, depth)),
{
    reveal(in_entry);
    lemma_index_path();
    lemma_bundles_path("_.index.bin"@);
}

/// A file in the folder `Bundles2` keeps its place there.
proof fn lemma_place_is_kept(
    s: Seq<u8>,
    t: Seq<u8>,
    utf32: bool,
    p: int,
    bundle_name: Seq<char>,
    bundle: Seq<u8>,
    index: Seq<u8>,
    wanted: Seq<char>,
    left: nat,
) -> (k: int)
    requires
        patch_stands(s, t, utf32, p, bundle_name, bundle, index),
        names_are_sound(s, utf32),
        index_is_a_file(s, utf32),
        bundles_folder(s, utf32).entries.len() > 0,
        wanted != bundles_path("_.index.bin"@),
        found_file(behind_pointer(s, utf32, p, wanted, left)),
    ensures
        stays_first(s, utf32, p, wanted, left, k),
{
    let entries = bundles_folder(s, utf32).entries;
    let below = (left - 1) as nat;
    assert(may_contain("Bundles2"@, wanted)) by {
        reveal(behind_pointer);
        reveal(patch_stands);
        assert(ggpk_path(Seq::empty(), "Bundles2"@) == "Bundles2"@);
    }
    let k = lemma_behind_old_pointer(
        s,
        t,
        utf32,
        p,
        bundle_name,
        bundle,
        index,
        wanted,
        left,
    );
    let name = entries[k].name;
    if is_index_name(name) {
        lemma_index_holds_nothing_else(s, utf32, entries[k], wanted, below);
    }
    if !may_contain(bundles_path(name), wanted) {
        lemma_entry_without_path(s, utf32, entries[k], wanted, below);
    }
    assert forall|j: int|
        0 <= j < entries.len() && comes_before(entry_keys(entries), j, k) && !is_index_name(
            (#[trigger] entries[j]).name,
        ) implies found_nothing(in_entry(s, utf32, entries[j], wanted, below)) by {
        assert(j != k);
        assert(entries[j].name != name);
        lemma_below_one_entry(name, entries[j].name, wanted);
        lemma_entry_without_path(s, utf32, entries[j], wanted, below);
    }
    k
}

/// After a patch every other path leads to the same bytes as before, or to nothing
/// as before. `archive_clear`: no record lies on the pointer that is turned.
pub proof fn law_other_files_of_the_archive_stay(
    s: Seq<u8>,
    utf32: bool,
    bundle_name: Seq<char>,
    bundle: Seq<u8>,
    index: Seq<u8>,
    plan: PlanView,
    wanted: Seq<char>,
)
    requires
        s.len() <= u64::MAX,
        patch_plan(s, utf32, s.len() as u64, bundle_name, bundle, index) == Ok::<
            PlanView,
            GgpkError,
        >(plan),
        no_nul(bundle_name),
        wanted != bundles_path("_.index.bin"@),
        wanted != bundles_path(custom_file_name(bundle_name)),
        file_in(s, utf32, wanted) is Ok,
        archive_clear(s, utf32, plan.backup.bundles2_offset_pos as int, wanted),
        names_are_sound(s, utf32),
        index_is_a_file(s, utf32),
    ensures
        ({
            let t = patched_archive(s, plan);
            &&& file_in(t, utf32, wanted) == file_in(s, utf32, wanted)
            &&& match file_in(s, utf32, wanted) {
                Ok(Some((begin, n))) => {
                    &&& 0 <= begin
                    &&& 0 <= n
                    &&& begin + n <= s.len()
                    &&& t.subrange(begin, begin + n) == s.subrange(begin, begin + n)
                },
                _ => true,
            }
        }),
{
    let p = plan.backup.bundles2_offset_pos as int;
    let t = patched_archive(s, plan);
    lemma_patch_stands(s, utf32, bundle_name, bundle, index, plan);
    lemma_stands_apart(s, t, utf32, p, bundle_name, bundle, index);
    let x = lemma_depth_grows(s.len(), plan.append_bytes.len(), wanted.len());
    let old_depth = depth_bound(s.len(), wanted.len());
    let reached = reaches_pointer(s, utf32, p, wanted);
    assert(nothing_new(s, t, utf32, p, wanted, x)) by {
        assert forall|e: nat|
            found_nothing(#[trigger] behind_pointer(s, utf32, p, wanted, e)) && clear_of(
                s,
                utf32,
                p,
                u64_at(s, p) as int,
                Seq::empty(),
                e,
            ) implies found_nothing(behind_pointer(t, utf32, p, wanted, (e + x) as nat)) by {
            lemma_new_folder_holds_nothing(
                s,
                t,
                utf32,
                p,
                bundle_name,
                bundle,
                index,
                wanted,
                x,
                e,
            );
        }
    }
    if reached is Some {
        lemma_at_pointer(s, utf32, p, 0, Seq::empty(), wanted, old_depth);
        if found_file(behind_pointer(s, utf32, p, wanted, reached->0)) {
            let i = lemma_folder_has_index(s, utf32, bundle_name, bundle, index);
            let k = lemma_place_is_kept(
                s,
                t,
                utf32,
                p,
                bundle_name,
                bundle,
                index,
                wanted,
                reached->0,
            );
            lemma_file_keeps_its_place(
                s,
                t,
                utf32,
                p,
                bundle_name,
                bundle,
                index,
                wanted,
                reached->0,
                x,
                k,
            );
        }
        assert(still_there(s, t, utf32, p, wanted, x, reached->0));
    }
    lemma_same_search(s, t, utf32, p, 0, Seq::empty(), wanted, old_depth, x);
    lemma_span_clear(s, utf32, p, 0, Seq::empty(), wanted, old_depth);
    if let Ok(Some((begin, n))) = file_in(s, utf32, wanted) {
        assert(t.subrange(begin, begin + n) =~= s.subrange(begin, begin + n));
    }
}

proof fn lemma_file_keeps_its_place(
    s: Seq<u8>,
    t: Seq<u8>,
    utf32: bool,
    p: int,
    bundle_name: Seq<char>,
    bundle: Seq<u8>,
    index: Seq<u8>,
    wanted: Seq<char>,
    left: nat,
    x: nat,
    k: int,
)
    requires
        patch_stands(s, t, utf32, p, bundle_name, bundle, index),
        no_nul(bundle_name),
        x > 0,
        wanted != bundles_path("_.index.bin"@),
        wanted != bundles_path(custom_file_name(bundle_name)),
        clear_of(s, utf32, p, u64_at(s, p) as int, Seq::empty(), left),
        found_file(behind_pointer(s, utf32, p, wanted, left)),
        stays_first(s, utf32, p, wanted, left, k),
    ensures
        behind_pointer(t, utf32, p, wanted, (left + x) as nat) == behind_pointer(
            s,
            utf32,
            p,
            wanted,
            left,
        ),
{
    let entries = bundles_folder(s, utf32).entries;
    let below = (left - 1) as nat;
    let d = (below + x) as nat;
    let all = new_entries(s, utf32, bundle_name, index);
    assert(may_contain("Bundles2"@, wanted) && left > 0) by {
        reveal(behind_pointer);
        reveal(patch_stands);
        assert(ggpk_path(Seq::empty(), "Bundles2"@) == "Bundles2"@);
    }
    lemma_new_entry(s, t, utf32, p, bundle_name, bundle, index, wanted, below, x, k);
    let found = in_entry(t, utf32, all[k], wanted, d);
    assert forall|q: int|
        0 <= q < all.len() && (q < entries.len() && k < entries.len() ==> comes_before(
            entry_keys(entries),
            q,
            k,
        )) implies {
        let r = #[trigger] in_entry(t, utf32, all[q], wanted, d);
        found_nothing(r) || r == found
    } by {
        lemma_new_entry(s, t, utf32, p, bundle_name, bundle, index, wanted, below, x, q);
        if q < entries.len() {
            assert(is_index_name(entries[q].name) || found_nothing(
                in_entry(s, utf32, entries[q], wanted, below),
            ));
        }
    }
    lemma_new_folder_finds(
        s,
        t,
        utf32,
        p,
        bundle_name,
        bundle,
        index,
        wanted,
        d,
        k,
    );
    assert(d + 1 == left + x);
}

} // verus!
