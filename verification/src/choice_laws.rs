//! Which patches are chosen, what is found and what is read, told without how.

use crate::app::{named_patches, paths_with, preset_patches, FoundView};
use crate::choices::{
    known_patches, listed_selection, requested, selected_count, trim_back, trim_front, trimmed,
    with_patches, without_camera,
};
use crate::index::{directory_paths, file_of, DirectoryRecord, IndexError, IndexView, IndexedView};
use crate::install::{
    chosen_dir, first_existing, game_children, manifest_path_of, steam_choice, steam_game_dir_of,
    ChildDir, DirProbe, FolderFiles, ManifestProbe, SteamProbe,
};
use crate::patches::{
    name_of, named_ids, parsed_patch, preset_list, preset_named, same_name, uniques, PatchId,
    PresetView,
};
use crate::path_laws::{is_section, law_spelled_paths_are_read, one_list, sections_bytes, Section};
use crate::pick_laws::{and_last, lemma_picks_more, lemma_picks_none, picks};
use crate::targets::{all_targets, target_files};
use crate::text::{
    blank, contains_text, decimal, digit_char, lower, lower_all, starts_with, unicode_whitespace,
};
use vstd::prelude::*;

verus! {

/// Saved names stand for the patches that they name, each of which is there once.
/// Names of no patch stand for none.
pub proof fn law_saved_names_are_read(names: Seq<Seq<char>>, n: nat)
    requires
        n <= names.len(),
    ensures
        forall|id: PatchId| #[trigger]
            known_patches(names, n).contains(id) <==> exists|i: int|
                0 <= i < n && parsed_patch(#[trigger] names[i]) == Some(id),
        known_patches(names, n).no_duplicates(),
    decreases n,
{
    if n > 0 {
        let m = (n - 1) as nat;
        law_saved_names_are_read(names, m);
        let before = known_patches(names, m);
        let now = known_patches(names, n);
        assert forall|id: PatchId| #[trigger] now.contains(id) <==> exists|i: int|
            0 <= i < n && parsed_patch(#[trigger] names[i]) == Some(id) by {
            if now.contains(id) {
                if before.contains(id) {
                    let i = choose|i: int|
                        0 <= i < m && parsed_patch(#[trigger] names[i]) == Some(id);
                    assert(0 <= i < n && parsed_patch(names[i]) == Some(id));
                } else {
                    let k = choose|k: int| 0 <= k < now.len() && now[k] == id;
                    if k < before.len() {
                        assert(before[k] == id);
                    }
                    assert(parsed_patch(names[n - 1]) == Some(id));
                }
            }
            if exists|i: int| 0 <= i < n && parsed_patch(#[trigger] names[i]) == Some(id) {
                let i = choose|i: int| 0 <= i < n && parsed_patch(#[trigger] names[i]) == Some(id);
                if i < m {
                    assert(before.contains(id));
                    let k = choose|k: int| 0 <= k < before.len() && before[k] == id;
                    assert(now[k] == id);
                } else if before.contains(id) {
                } else {
                    assert(now[now.len() - 1] == id);
                }
            }
        }
    } else {
        assert forall|id: PatchId| !known_patches(names, 0).contains(id) by {}
    }
}

/// The selected patches are listed in the order of the list.
pub proof fn law_selection_is_listed_in_order(selected: Seq<PatchId>, n: nat) -> (at: Seq<int>)
    requires
        n <= named_ids().len(),
    ensures
        picks(at, Seq::new(n, |i: int| selected.contains(named_ids()[i]))),
        listed_selection(selected, n).len() == at.len(),
        forall|k: int|
            0 <= k < at.len() ==> #[trigger] listed_selection(selected, n)[k]
                == named_ids()[at[k]],
    decreases n,
{
    let want = Seq::new(n, |i: int| selected.contains(named_ids()[i]));
    if n == 0 {
        lemma_picks_none(want);
        Seq::empty()
    } else {
        let l = (n - 1) as nat;
        let at = law_selection_is_listed_in_order(selected, l);
        let before = listed_selection(selected, l);
        let less = Seq::new(l, |i: int| selected.contains(named_ids()[i]));
        assert(want.drop_last() =~= less);
        lemma_picks_more(at, less, want);
        let all = and_last(at, n - 1, want.last());
        let r = listed_selection(selected, n);
        assert forall|k: int| 0 <= k < all.len() implies #[trigger] r[k] == named_ids()[all[k]] by {
            if k < at.len() {
                assert(r[k] == before[k]);
                assert(all[k] == at[k]);
            }
        }
        all
    }
}

proof fn lemma_without_camera(s: Seq<PatchId>, n: nat) -> (at: Seq<int>)
    requires
        n <= s.len(),
    ensures
        picks(at, Seq::new(n, |i: int| s[i] != PatchId::Camera)),
        without_camera(s, n).len() == at.len(),
        forall|k: int| 0 <= k < at.len() ==> #[trigger] without_camera(s, n)[k] == s[at[k]],
    decreases n,
{
    let want = Seq::new(n, |i: int| s[i] != PatchId::Camera);
    if n == 0 {
        lemma_picks_none(want);
        Seq::empty()
    } else {
        let l = (n - 1) as nat;
        let at = lemma_without_camera(s, l);
        let before = without_camera(s, l);
        let less = Seq::new(l, |i: int| s[i] != PatchId::Camera);
        assert(want.drop_last() =~= less);
        lemma_picks_more(at, less, want);
        let all = and_last(at, n - 1, want.last());
        let r = without_camera(s, n);
        assert forall|k: int| 0 <= k < all.len() implies #[trigger] r[k] == s[all[k]] by {
            if k < at.len() {
                assert(r[k] == before[k]);
                assert(all[k] == at[k]);
            }
        }
        all
    }
}

/// Patches are applied in the order of the list, and the camera patch last.
pub proof fn law_camera_comes_last(selected: Seq<PatchId>) -> (at: Seq<int>)
    ensures
        ({
            let listed = listed_selection(selected, named_ids().len());
            let r = requested(selected);
            &&& picks(at, Seq::new(listed.len(), |i: int| listed[i] != PatchId::Camera))
            &&& r.len() == at.len() + if listed.contains(PatchId::Camera) {
                1nat
            } else {
                0
            }
            &&& forall|k: int| 0 <= k < at.len() ==> #[trigger] r[k] == listed[at[k]]
            &&& listed.contains(PatchId::Camera) ==> r[r.len() - 1] == PatchId::Camera
        }),
{
    let listed = listed_selection(selected, named_ids().len());
    let want = Seq::new(listed.len(), |i: int| listed[i] != PatchId::Camera);
    let at = lemma_without_camera(listed, listed.len());
    let r = requested(selected);
    if listed.contains(PatchId::Camera) {
        assert forall|k: int| 0 <= k < at.len() implies #[trigger] r[k] == listed[at[k]] by {
            assert(r[k] == without_camera(listed, listed.len())[k]);
        }
        at
    } else {
        let all = Seq::new(listed.len(), |i: int| i);
        assert forall|i: int| 0 <= i < want.len() implies #[trigger] want[i] by {
            assert(listed.contains(listed[i]));
        }
        assert forall|i: int| 0 <= i < want.len() && #[trigger] want[i] implies all.contains(i) by {
            assert(all[i] == i);
        }
        assert(picks(all, want));
        all
    }
}

/// Adding patches to a selection leaves what was selected in front and adds each of the
/// patches that was not, once.
pub proof fn law_patches_are_added(selected: Seq<PatchId>, patches: Seq<PatchId>, n: nat)
    requires
        n <= patches.len(),
    ensures
        ({
            let r = with_patches(selected, patches, n);
            &&& selected.len() <= r.len()
            &&& r.take(selected.len() as int) == selected
            &&& forall|id: PatchId| #[trigger]
                r.contains(id) <==> selected.contains(id) || exists|i: int|
                    0 <= i < n && #[trigger] patches[i] == id
            &&& selected.no_duplicates() ==> r.no_duplicates()
        }),
    decreases n,
{
    if n == 0 {
        assert(selected.take(selected.len() as int) =~= selected);
    } else {
        let m = (n - 1) as nat;
        law_patches_are_added(selected, patches, m);
        let before = with_patches(selected, patches, m);
        let now = with_patches(selected, patches, n);
        let last = patches[n - 1];
        assert(now.take(selected.len() as int) =~= before.take(selected.len() as int));
        assert forall|id: PatchId| #[trigger] now.contains(id) <==> selected.contains(id)
            || exists|i: int| 0 <= i < n && #[trigger] patches[i] == id by {
            if now.contains(id) && !before.contains(id) {
                let k = choose|k: int| 0 <= k < now.len() && now[k] == id;
                if k < before.len() {
                    assert(before[k] == id);
                }
                assert(patches[n - 1] == id);
            }
            if before.contains(id) {
                let k = choose|k: int| 0 <= k < before.len() && before[k] == id;
                assert(now[k] == id);
                if !selected.contains(id) {
                    let i = choose|i: int| 0 <= i < m && #[trigger] patches[i] == id;
                    assert(0 <= i < n && patches[i] == id);
                }
            }
            if id == last && !before.contains(id) {
                assert(now[now.len() - 1] == id);
            }
            if exists|i: int| 0 <= i < n && #[trigger] patches[i] == id {
                let i = choose|i: int| 0 <= i < n && #[trigger] patches[i] == id;
                if i < m {
                    assert(before.contains(id));
                }
            }
        }
    }
}

/// As many patches of a group are counted as selected as are.
pub proof fn law_selected_patches_are_counted(
    selected: Seq<PatchId>,
    patches: Seq<PatchId>,
    n: nat,
) -> (at: Seq<int>)
    requires
        n <= patches.len(),
    ensures
        picks(at, Seq::new(n, |i: int| selected.contains(patches[i]))),
        selected_count(selected, patches, n) == at.len(),
    decreases n,
{
    let want = Seq::new(n, |i: int| selected.contains(patches[i]));
    if n == 0 {
        lemma_picks_none(want);
        Seq::empty()
    } else {
        let l = (n - 1) as nat;
        let at = law_selected_patches_are_counted(selected, patches, l);
        let less = Seq::new(l, |i: int| selected.contains(patches[i]));
        assert(want.drop_last() =~= less);
        lemma_picks_more(at, less, want);
        and_last(at, n - 1, want.last())
    }
}

/// White space around what was entered does not count.
pub proof fn law_white_space_around_is_dropped(
    front: Seq<char>,
    core: Seq<char>,
    behind: Seq<char>,
)
    requires
        blank(front),
        blank(behind),
        core.len() > 0,
        !unicode_whitespace(core[0]),
        !unicode_whitespace(core[core.len() - 1]),
    ensures
        trimmed(front + core + behind) == core,
        trimmed(front) == Seq::<char>::empty(),
{
    lemma_trim_front(front, core + behind);
    assert(front + core + behind =~= front + (core + behind));
    lemma_trim_back(core, behind);
    assert(front + Seq::<char>::empty() =~= front);
    lemma_trim_front(front, Seq::empty());
    assert(trim_back(Seq::<char>::empty()) =~= Seq::<char>::empty());
}

proof fn lemma_trim_front(front: Seq<char>, s: Seq<char>)
    requires
        blank(front),
        s.len() == 0 || !unicode_whitespace(s[0]),
    ensures
        trim_front(front + s) == s,
    decreases front.len(),
{
    let t = front + s;
    if front.len() == 0 {
        assert(t =~= s);
    } else {
        let rest = front.drop_first();
        assert(unicode_whitespace(front[0]));
        assert forall|i: int| 0 <= i < rest.len() implies unicode_whitespace(#[trigger] rest[i]) by {
            assert(rest[i] == front[i + 1]);
        }
        assert(t.subrange(1, t.len() as int) =~= rest + s);
        lemma_trim_front(rest, s);
    }
}

proof fn lemma_trim_back(s: Seq<char>, behind: Seq<char>)
    requires
        blank(behind),
        s.len() > 0,
        !unicode_whitespace(s[s.len() - 1]),
    ensures
        trim_back(s + behind) == s,
    decreases behind.len(),
{
    let t = s + behind;
    if behind.len() == 0 {
        assert(t =~= s);
    } else {
        let rest = behind.drop_last();
        assert(unicode_whitespace(behind[behind.len() - 1]));
        assert(t.last() == behind[behind.len() - 1]);
        assert forall|i: int| 0 <= i < rest.len() implies unicode_whitespace(#[trigger] rest[i]) by {
            assert(rest[i] == behind[i]);
        }
        assert(t.drop_last() =~= s + rest);
        lemma_trim_back(s, rest);
    }
}

/// A search for paths gives those that hold the query, whatever its case, in their
/// order, as many of the first of them as are asked for.
pub proof fn law_paths_with_the_query_are_found(
    v: IndexView,
    paths: Seq<Seq<char>>,
    query: Seq<char>,
    limit: nat,
    n: nat,
) -> (at: Seq<int>)
    requires
        n <= paths.len(),
    ensures
        ({
            let r = paths_with(v, paths, query, limit, n);
            &&& picks(
                at,
                Seq::new(n, |i: int| contains_text(lower_all(paths[i]), lower_all(query))),
            )
            &&& r.len() == if at.len() < limit {
                at.len()
            } else {
                limit
            }
            &&& forall|k: int|
                0 <= k < r.len() ==> #[trigger] r[k] == (FoundView {
                    path: paths[at[k]],
                    has_record: file_of(v, paths[at[k]]) is Some,
                })
        }),
    decreases n,
{
    let want = Seq::new(n, |i: int| contains_text(lower_all(paths[i]), lower_all(query)));
    if n == 0 {
        lemma_picks_none(want);
        Seq::empty()
    } else {
        let l = (n - 1) as nat;
        let at = law_paths_with_the_query_are_found(v, paths, query, limit, l);
        let before = paths_with(v, paths, query, limit, l);
        let less = Seq::new(l, |i: int| contains_text(lower_all(paths[i]), lower_all(query)));
        assert(want.drop_last() =~= less);
        lemma_picks_more(at, less, want);
        let all = and_last(at, n - 1, want.last());
        let r = paths_with(v, paths, query, limit, n);
        assert forall|k: int| 0 <= k < r.len() implies #[trigger] r[k] == (FoundView {
            path: paths[all[k]],
            has_record: file_of(v, paths[all[k]]) is Some,
        }) by {
            if k < before.len() {
                assert(r[k] == before[k]);
                assert(all[k] == at[k]);
            }
        }
        all
    }
}

/// What decimal digits say.
pub open spec fn digits_value(s: Seq<char>) -> int
    decreases s.len(),
{
    if s.len() == 0 {
        0
    } else {
        10 * digits_value(s.drop_last()) + (s.last() as u32 as int - 48)
    }
}

/// A number is written in the digits that say it, without zeros in front.
pub proof fn law_decimal_digits_say_the_number(n: nat)
    ensures
        digits_value(decimal(n)) == n,
        decimal(n).len() > 0,
        forall|i: int| 0 <= i < decimal(n).len() ==> '0' <= #[trigger] decimal(n)[i] <= '9',
        n > 0 ==> decimal(n)[0] != '0',
    decreases n,
{
    let s = decimal(n);
    if n < 10 {
        lemma_digit(n);
        assert(s =~= seq![digit_char(n)]);
        assert(s.drop_last() =~= Seq::<char>::empty());
        assert(digits_value(Seq::<char>::empty()) == 0);
    } else {
        law_decimal_digits_say_the_number(n / 10);
        lemma_digit(n % 10);
        assert(s.drop_last() =~= decimal(n / 10));
    }
}

proof fn lemma_digit(n: nat)
    requires
        n < 10,
    ensures
        digit_char(n) as u32 == 48 + n,
        '0' <= digit_char(n) <= '9',
        n > 0 ==> digit_char(n) != '0',
{
}

/// Of the Steam libraries the first one counts that settles the search: one whose
/// manifest cannot be read, or leads to a folder that exists.
pub open spec fn settles(p: SteamProbe) -> bool {
    match p.found {
        ManifestProbe::Missing => false,
        ManifestProbe::Unreadable => true,
        ManifestProbe::Text { manifest, game_dir_exists, files } => game_dir_exists,
    }
}

proof fn lemma_steam_settled(probes: Seq<SteamProbe>, i: int, from: int)
    requires
        0 <= from <= i <= probes.len(),
        forall|j: int| from <= j < i ==> !settles(#[trigger] probes[j]),
    ensures
        steam_choice(probes, from) == steam_choice(probes, i),
    decreases i - from,
{
    if from < i {
        assert(!settles(probes[from]));
        lemma_steam_settled(probes, i, from + 1);
    }
}

proof fn lemma_first_existing(dirs: Seq<DirProbe>, i: int, from: int)
    requires
        0 <= from <= i <= dirs.len(),
        forall|j: int| from <= j < i ==> !(#[trigger] dirs[j]).exists,
    ensures
        first_existing(dirs, from) == first_existing(dirs, i),
    decreases i - from,
{
    if from < i {
        assert(!dirs[from].exists);
        lemma_first_existing(dirs, i, from + 1);
    }
}

/// A folder that was given is taken, whatever else there is.
pub proof fn law_given_folder_is_taken(
    given: DirProbe,
    steam: Seq<SteamProbe>,
    standalone: Seq<DirProbe>,
)
    ensures
        chosen_dir(Some(given), steam, standalone) == Ok::<
            (Seq<char>, FolderFiles),
            Option<Seq<char>>,
        >((given.path@, given.files)),
{
}

/// Without one, the first Steam library that settles the search does: by the folder that
/// its manifest leads to, or by a manifest that cannot be read.
pub proof fn law_first_settled_library_counts(
    steam: Seq<SteamProbe>,
    standalone: Seq<DirProbe>,
    i: int,
)
    requires
        0 <= i < steam.len(),
        settles(steam[i]),
        forall|j: int| 0 <= j < i ==> !settles(#[trigger] steam[j]),
    ensures
        chosen_dir(None, steam, standalone) == match steam[i].found {
            ManifestProbe::Text { manifest, game_dir_exists, files } => Ok::<
                (Seq<char>, FolderFiles),
                Option<Seq<char>>,
            >((steam_game_dir_of(steam[i].library@, manifest@), files)),
            _ => Err(Some(manifest_path_of(steam[i].library@))),
        },
{
    lemma_steam_settled(steam, i, 0);
}

/// Where no Steam library settles the search, the first of the other folders counts that
/// exists; where none does, there is no folder.
pub proof fn law_first_existing_folder_counts(
    steam: Seq<SteamProbe>,
    standalone: Seq<DirProbe>,
    i: int,
)
    requires
        forall|j: int| 0 <= j < steam.len() ==> !settles(#[trigger] steam[j]),
        0 <= i <= standalone.len(),
        forall|j: int| 0 <= j < i ==> !(#[trigger] standalone[j]).exists,
        i < standalone.len() ==> standalone[i].exists,
    ensures
        chosen_dir(None, steam, standalone) == if i < standalone.len() {
            Ok::<(Seq<char>, FolderFiles), Option<Seq<char>>>(
                (standalone[i].path@, standalone[i].files),
            )
        } else {
            Err(None)
        },
{
    lemma_steam_settled(steam, steam.len() as int, 0);
    lemma_first_existing(standalone, i, 0);
}

/// Where each patch has a file, the targets are those of the patches, one patch behind
/// the other.
pub proof fn law_targets_of_patches_come_in_turn(
    v: IndexView,
    paths: Seq<Seq<char>>,
    first: Seq<PatchId>,
    last: PatchId,
)
    ensures
        all_targets(v, paths, Seq::empty(), 0) == Ok::<Seq<IndexedView>, PatchId>(Seq::empty()),
        all_targets(v, paths, first.push(last), first.len() + 1) == match all_targets(
            v,
            paths,
            first,
            first.len(),
        ) {
            Err(id) => Err::<Seq<IndexedView>, PatchId>(id),
            Ok(before) => if target_files(v, paths, last).len() == 0 {
                Err(last)
            } else {
                Ok(before + target_files(v, paths, last))
            },
        },
{
    lemma_targets_front(v, paths, first, last, first.len());
    assert(first.push(last)[first.len() as int] == last);
}

proof fn lemma_targets_front(
    v: IndexView,
    paths: Seq<Seq<char>>,
    first: Seq<PatchId>,
    last: PatchId,
    n: nat,
)
    requires
        n <= first.len(),
    ensures
        all_targets(v, paths, first.push(last), n) == all_targets(v, paths, first, n),
    decreases n,
{
    if n > 0 {
        lemma_targets_front(v, paths, first, last, (n - 1) as nat);
        assert(first.push(last)[n - 1] == first[n - 1]);
    }
}

/// The names of patches stand for the patches in their order; the first that stands for
/// none is a fault.
pub proof fn law_named_patches_are_read(names: Seq<Seq<char>>, n: nat)
    requires
        n <= names.len(),
    ensures
        (forall|i: int| 0 <= i < n ==> parsed_patch(#[trigger] names[i]) is Some) ==> {
            &&& named_patches(names, n) is Ok
            &&& named_patches(names, n)->Ok_0.len() == n
            &&& forall|i: int|
                0 <= i < n ==> Some(#[trigger] named_patches(names, n)->Ok_0[i]) == parsed_patch(
                    names[i],
                )
        },
        forall|i: int|
            0 <= i < n && parsed_patch(#[trigger] names[i]) is None && (forall|j: int|
                0 <= j < i ==> parsed_patch(#[trigger] names[j]) is Some) ==> named_patches(
                names,
                n,
            ) == Err::<Seq<PatchId>, int>(i),
    decreases n,
{
    if n > 0 {
        let m = (n - 1) as nat;
        law_named_patches_are_read(names, m);
        if forall|i: int| 0 <= i < n ==> parsed_patch(#[trigger] names[i]) is Some {
            assert(parsed_patch(names[n - 1]) is Some);
            let before = named_patches(names, m)->Ok_0;
            let now = named_patches(names, n)->Ok_0;
            assert forall|i: int| 0 <= i < n implies Some(#[trigger] now[i]) == parsed_patch(
                names[i],
            ) by {
                if i < m {
                    assert(now[i] == before[i]);
                }
            }
        }
        assert forall|i: int|
            0 <= i < n && parsed_patch(#[trigger] names[i]) is None && (forall|j: int|
                0 <= j < i ==> parsed_patch(#[trigger] names[j]) is Some) implies named_patches(
            names,
            n,
        ) == Err::<Seq<PatchId>, int>(i) by {
            if i == m {
                assert(named_patches(names, m) is Ok);
            }
        }
    }
}

/// The presets stand for their patches, one preset behind the other; the first name of
/// none is a fault.
pub proof fn law_presets_are_read_in_turn(first: Seq<Seq<char>>, last: Seq<char>)
    ensures
        preset_patches(Seq::empty(), 0) == Ok::<Seq<PatchId>, int>(Seq::empty()),
        preset_patches(first.push(last), first.len() + 1) == match preset_patches(
            first,
            first.len(),
        ) {
            Err(i) => Err::<Seq<PatchId>, int>(i),
            Ok(before) => match preset_named(last, 0) {
                None => Err(first.len() as int),
                Some(preset) => Ok(before + preset.patches),
            },
        },
{
    lemma_presets_front(first, last, first.len());
    assert(first.push(last)[first.len() as int] == last);
}

proof fn lemma_presets_front(first: Seq<Seq<char>>, last: Seq<char>, n: nat)
    requires
        n <= first.len(),
    ensures
        preset_patches(first.push(last), n) == preset_patches(first, n),
    decreases n,
{
    if n > 0 {
        lemma_presets_front(first, last, (n - 1) as nat);
        assert(first.push(last)[n - 1] == first[n - 1]);
    }
}

/// The paths of an index are those that its directories spell, one directory behind the
/// other.
pub proof fn law_directories_are_read_in_turn(
    s: Seq<u8>,
    directories: Seq<DirectoryRecord>,
    gs: Seq<Seq<Section>>,
    tables: Seq<Seq<Seq<Seq<char>>>>,
    paths: Seq<Seq<Seq<Seq<char>>>>,
    i: int,
    out: Seq<Seq<char>>,
)
    requires
        0 <= i <= directories.len(),
        gs.len() == directories.len(),
        tables.len() == directories.len(),
        paths.len() == directories.len(),
        forall|k: int|
            0 <= k < directories.len() ==> spells(s, #[trigger] directories[k], gs[k], tables[k], paths[k]),
    ensures
        directory_paths(s, directories, i, out) == Ok::<Seq<Seq<char>>, IndexError>(
            out + one_list(
                Seq::new((directories.len() - i) as nat, |k: int| one_list(paths[i + k])),
            ),
        ),
    decreases directories.len() - i,
{
    let lists = Seq::new((directories.len() - i) as nat, |k: int| one_list(paths[i + k]));
    if i == directories.len() {
        assert(out + one_list(lists) =~= out);
    } else {
        assert(spells(s, directories[i], gs[i], tables[i], paths[i]));
        law_spelled_paths_are_read(gs[i], tables[i], paths[i], out);
        let now = out + one_list(paths[i]);
        law_directories_are_read_in_turn(s, directories, gs, tables, paths, i + 1, now);
        let more = Seq::new((directories.len() - (i + 1)) as nat, |k: int| one_list(paths[i + 1 + k]));
        assert(lists.drop_first() =~= more) by {
            assert forall|k: int| 0 <= k < more.len() implies lists.drop_first()[k] == more[k] by {
                assert(lists.drop_first()[k] == one_list(paths[i + (k + 1)]));
            }
        }
        assert(now + one_list(more) =~= out + one_list(lists));
    }
}

/// Whether a directory's part of the data spells some sections of paths.
pub open spec fn spells(
    s: Seq<u8>,
    d: DirectoryRecord,
    gs: Seq<Section>,
    tables: Seq<Seq<Seq<char>>>,
    paths: Seq<Seq<Seq<char>>>,
) -> bool {
    &&& d.offset + d.size <= s.len()
    &&& s.subrange(d.offset as int, d.offset + d.size) == sections_bytes(gs)
    &&& tables.len() == gs.len()
    &&& paths.len() == gs.len()
    &&& forall|k: int| 0 <= k < gs.len() ==> is_section(#[trigger] gs[k], tables[k], paths[k])
}

/// The presets and the patches that each stands for, in order.
pub proof fn law_presets_stand_for_their_patches()
    ensures
        preset_list().map_values(|p: PresetView| (p.name, p.patches)) == seq![
            (
                "maps-revealed"@,
                seq![
                    PatchId::Minimap,
                    PatchId::AtlasFog,
                ],
            ),
            (
                "performance"@,
                seq![
                    PatchId::Fog,
                    PatchId::Rain,
                    PatchId::Clouds,
                    PatchId::EnvParticles,
                    PatchId::Delirium,
                    PatchId::Particles,
                    PatchId::Effects,
                ],
            ),
            (
                "optimal"@,
                seq![
                    PatchId::Minimap,
                    PatchId::AtlasFog,
                    PatchId::Fog,
                    PatchId::Rain,
                    PatchId::Clouds,
                    PatchId::EnvParticles,
                    PatchId::Effects,
                ],
            ),
            (
                "daylight"@,
                seq![
                    PatchId::Fog,
                    PatchId::Shadow,
                    PatchId::Light,
                    PatchId::EnvParticles,
                    PatchId::Delirium,
                ],
            ),
            (
                "high-performance"@,
                seq![
                    PatchId::Fog,
                    PatchId::Rain,
                    PatchId::Clouds,
                    PatchId::EnvParticles,
                    PatchId::Delirium,
                    PatchId::Particles,
                    PatchId::Effects,
                    PatchId::DisableSounds,
                    PatchId::MtxSoft,
                ],
            ),
            (
                "black-screen"@,
                seq![
                    PatchId::BlackScreen,
                ],
            ),
            (
                "check-all"@,
                seq![
                    PatchId::Camera,
                    PatchId::Minimap,
                    PatchId::AtlasFog,
                    PatchId::Fog,
                    PatchId::Rain,
                    PatchId::Clouds,
                    PatchId::EnvParticles,
                    PatchId::Shadow,
                    PatchId::Light,
                    PatchId::Delirium,
                    PatchId::Particles,
                    PatchId::Effects,
                    PatchId::DisableSounds,
                    PatchId::SkillSounds,
                    PatchId::MonsterSounds,
                    PatchId::MtxSoft,
                ],
            ),
        ],
{
    let found = preset_list().map_values(|p: PresetView| (p.name, p.patches));
    assert(found =~= seq![
        (
            "maps-revealed"@,
            seq![
                PatchId::Minimap,
                PatchId::AtlasFog,
            ],
        ),
        (
            "performance"@,
            seq![
                PatchId::Fog,
                PatchId::Rain,
                PatchId::Clouds,
                PatchId::EnvParticles,
                PatchId::Delirium,
                PatchId::Particles,
                PatchId::Effects,
            ],
        ),
        (
            "optimal"@,
            seq![
                PatchId::Minimap,
                PatchId::AtlasFog,
                PatchId::Fog,
                PatchId::Rain,
                PatchId::Clouds,
                PatchId::EnvParticles,
                PatchId::Effects,
            ],
        ),
        (
            "daylight"@,
            seq![
                PatchId::Fog,
                PatchId::Shadow,
                PatchId::Light,
                PatchId::EnvParticles,
                PatchId::Delirium,
            ],
        ),
        (
            "high-performance"@,
            seq![
                PatchId::Fog,
                PatchId::Rain,
                PatchId::Clouds,
                PatchId::EnvParticles,
                PatchId::Delirium,
                PatchId::Particles,
                PatchId::Effects,
                PatchId::DisableSounds,
                PatchId::MtxSoft,
            ],
        ),
        (
            "black-screen"@,
            seq![
                PatchId::BlackScreen,
            ],
        ),
        (
            "check-all"@,
            seq![
                PatchId::Camera,
                PatchId::Minimap,
                PatchId::AtlasFog,
                PatchId::Fog,
                PatchId::Rain,
                PatchId::Clouds,
                PatchId::EnvParticles,
                PatchId::Shadow,
                PatchId::Light,
                PatchId::Delirium,
                PatchId::Particles,
                PatchId::Effects,
                PatchId::DisableSounds,
                PatchId::SkillSounds,
                PatchId::MonsterSounds,
                PatchId::MtxSoft,
            ],
        ),
    ]);
}

/// What each patch goes by.
pub proof fn law_patches_go_by_their_names(id: PatchId)
    ensures
        name_of(id) == match id {
            PatchId::Camera => "camera"@,
            PatchId::Minimap => "minimap"@,
            PatchId::AtlasFog => "atlas-fog"@,
            PatchId::Fog => "fog"@,
            PatchId::Rain => "rain"@,
            PatchId::Clouds => "clouds"@,
            PatchId::EnvParticles => "env-particles"@,
            PatchId::Shadow => "shadow"@,
            PatchId::Light => "light"@,
            PatchId::Delirium => "delirium"@,
            PatchId::Particles => "particles"@,
            PatchId::Effects => "effects"@,
            PatchId::DisableSounds => "disable-sounds"@,
            PatchId::SkillSounds => "skill-sounds"@,
            PatchId::MonsterSounds => "monster-sounds"@,
            PatchId::MtxSoft => "mtx-soft"@,
            PatchId::BlackScreen => "black-screen"@,
            PatchId::ColorMods => "color-mods"@,
            PatchId::MonsterHpBar => "monster-hp-bar"@,
        },
{
}

/// Names are the same if they have the same letters, whatever their case, and the same
/// other characters.
pub proof fn law_case_of_names_does_not_count(a: Seq<char>, b: Seq<char>)
    ensures
        same_name(a, b) <==> a.len() == b.len() && forall|i: int|
            0 <= i < a.len() ==> #[trigger] a[i] == b[i] || ('A' <= a[i] <= 'Z' && b[i] as u32
                == a[i] as u32 + 32) || ('A' <= b[i] <= 'Z' && a[i] as u32 == b[i] as u32 + 32),
{
    let x = lower_all(a);
    let y = lower_all(b);
    if same_name(a, b) {
        assert(x.len() == y.len());
        assert forall|i: int| 0 <= i < a.len() implies #[trigger] a[i] == b[i] || ('A' <= a[i]
            <= 'Z' && b[i] as u32 == a[i] as u32 + 32) || ('A' <= b[i] <= 'Z' && a[i] as u32
            == b[i] as u32 + 32) by {
            assert(x[i] == y[i]);
            lemma_same_letter(a[i], b[i]);
        }
    }
    if a.len() == b.len() && forall|i: int|
        0 <= i < a.len() ==> #[trigger] a[i] == b[i] || ('A' <= a[i] <= 'Z' && b[i] as u32
            == a[i] as u32 + 32) || ('A' <= b[i] <= 'Z' && a[i] as u32 == b[i] as u32 + 32) {
        assert forall|i: int| 0 <= i < a.len() implies x[i] == y[i] by {
            lemma_same_letter(a[i], b[i]);
            assert(a[i] == b[i] || ('A' <= a[i] <= 'Z' && b[i] as u32 == a[i] as u32 + 32) || ('A'
                <= b[i] <= 'Z' && a[i] as u32 == b[i] as u32 + 32));
        }
        assert(x =~= y);
    }
}

proof fn lemma_same_letter(a: char, b: char)
    ensures
        lower(a) == lower(b) <==> a == b || ('A' <= a <= 'Z' && b as u32 == a as u32 + 32) || ('A'
            <= b <= 'Z' && a as u32 == b as u32 + 32),
{
}

/// Of the folders inside the publisher's folder those are installs of the game that
/// are named after it and hold it.
pub proof fn law_installs_are_found_by_name(children: Seq<ChildDir>, n: nat) -> (at: Seq<int>)
    requires
        n <= children.len(),
    ensures
        picks(
            at,
            Seq::new(
                n,
                |i: int|
                    children[i].is_install && starts_with(children[i].name@, "Path of Exile 2"@),
            ),
        ),
        game_children(children, n).len() == at.len(),
        forall|k: int|
            0 <= k < at.len() ==> #[trigger] game_children(children, n)[k]
                == children[at[k]].path@,
    decreases n,
{
    let want = Seq::new(
        n,
        |i: int| children[i].is_install && starts_with(children[i].name@, "Path of Exile 2"@),
    );
    if n == 0 {
        lemma_picks_none(want);
        Seq::empty()
    } else {
        let l = (n - 1) as nat;
        let at = law_installs_are_found_by_name(children, l);
        let before = game_children(children, l);
        let less = Seq::new(
            l,
            |i: int| children[i].is_install && starts_with(children[i].name@, "Path of Exile 2"@),
        );
        assert(want.drop_last() =~= less);
        lemma_picks_more(at, less, want);
        let all = and_last(at, n - 1, want.last());
        let r = game_children(children, n);
        assert forall|k: int| 0 <= k < all.len() implies #[trigger] r[k]
            == children[all[k]].path@ by {
            if k < at.len() {
                assert(r[k] == before[k]);
                assert(all[k] == at[k]);
            }
        }
        all
    }
}

/// Whether no place before `i` holds the same.
pub open spec fn is_first_place(s: Seq<PatchId>, i: int) -> bool {
    forall|j: int| 0 <= j < i ==> #[trigger] s[j] != s[i]
}

/// Of a selection with repetitions the first of each patch stays, in order.
pub proof fn law_first_of_each_patch_stays(s: Seq<PatchId>, n: nat) -> (at: Seq<int>)
    requires
        n <= s.len(),
    ensures
        picks(at, Seq::new(n, |i: int| is_first_place(s, i))),
        uniques(s, n).len() == at.len(),
        forall|k: int| 0 <= k < at.len() ==> #[trigger] uniques(s, n)[k] == s[at[k]],
    decreases n,
{
    let want = Seq::new(n, |i: int| is_first_place(s, i));
    if n == 0 {
        lemma_picks_none(want);
        Seq::empty()
    } else {
        let l = (n - 1) as nat;
        let at = law_first_of_each_patch_stays(s, l);
        let before = uniques(s, l);
        let less = Seq::new(l, |i: int| is_first_place(s, i));
        assert(want.drop_last() =~= less);
        lemma_picks_more(at, less, want);
        crate::patches::law_unique_patches_hold_each_once(s, l);
        assert(is_first_place(s, n - 1) == !before.contains(s[n - 1])) by {
            if before.contains(s[n - 1]) {
                let k = choose|k: int| 0 <= k < l && #[trigger] s[k] == s[n - 1];
                assert(s[k] == s[n - 1]);
            } else {
                assert forall|j: int| 0 <= j < n - 1 implies #[trigger] s[j] != s[n - 1] by {
                    if s[j] == s[n - 1] {
                        assert(before.contains(s[n - 1]));
                    }
                }
            }
        }
        let all = and_last(at, n - 1, want.last());
        let r = uniques(s, n);
        assert forall|k: int| 0 <= k < all.len() implies #[trigger] r[k] == s[all[k]] by {
            if k < at.len() {
                assert(r[k] == before[k]);
                assert(all[k] == at[k]);
            }
        }
        all
    }
}

} // verus!
