//! What the functions that pick some of a list pick, and what those that count count.

use crate::color_editor::{
    color_rows, enabled_mods, found_mods, found_stats, mod_hits, stat_hits, ColorModEntry,
    ColorRowRef, StatView,
};
use crate::editor::RowView;
use crate::editor_state::{
    filtered, has_override, kept_keys, kept_rows, kept_unnamed_rows, row_hits, shown, unnamed_rows,
    EditorView,
};
use crate::index::{file_of, files_of_paths, FileView, IndexView, IndexedView};
use crate::overrides::{EffectLevel, OverrideView};

use crate::patches::PatchId;
use crate::search::{query_matches, terms_from};
use crate::store::in_bundle;
use crate::targets::{exact_files, exact_targets, target_files, targets};
use vstd::prelude::*;

verus! {

/// Whether the numbers are, in order, those of the places that are wanted.
pub open spec fn picks(at: Seq<int>, want: Seq<bool>) -> bool {
    &&& forall|k: int| 0 <= k < at.len() ==> 0 <= #[trigger] at[k] < want.len() && want[at[k]]
    &&& forall|k: int, l: int| 0 <= k < l < at.len() ==> #[trigger] at[k] < #[trigger] at[l]
    &&& forall|i: int| 0 <= i < want.len() && #[trigger] want[i] ==> at.contains(i)
}

/// The places with one more, if it is wanted.
pub open spec fn and_last(at: Seq<int>, n: int, wanted: bool) -> Seq<int> {
    if wanted {
        at.push(n)
    } else {
        at
    }
}

pub proof fn lemma_picks_more(at: Seq<int>, before: Seq<bool>, want: Seq<bool>)
    requires
        want.len() > 0,
        before == want.drop_last(),
        picks(at, before),
    ensures
        picks(and_last(at, want.len() - 1, want.last()), want),
{
    let n = want.len() - 1;
    let all = and_last(at, n, want.last());
    assert forall|k: int| 0 <= k < all.len() implies 0 <= #[trigger] all[k] < want.len()
        && want[all[k]] by {
        if k < at.len() {
            assert(all[k] == at[k]);
            assert(before[at[k]] == want[at[k]]);
        }
    }
    assert forall|k: int, l: int| 0 <= k < l < all.len() implies #[trigger] all[k]
        < #[trigger] all[l] by {
        assert(all[k] == at[k]);
        if l < at.len() {
            assert(all[l] == at[l]);
        }
    }
    assert forall|i: int| 0 <= i < want.len() && #[trigger] want[i] implies all.contains(i) by {
        if i < n {
            assert(before[i]);
            assert(at.contains(i));
            let k = choose|k: int| 0 <= k < at.len() && at[k] == i;
            assert(all[k] == i);
        } else {
            assert(all[all.len() - 1] == i);
        }
    }
}

pub proof fn lemma_picks_none(want: Seq<bool>)
    requires
        want.len() == 0,
    ensures
        picks(Seq::empty(), want),
{
}

/// Which of the first `n` paths are kept and name a file.
pub open spec fn wanted_paths(v: IndexView, paths: Seq<Seq<char>>, keep: Seq<bool>, n: nat) -> Seq<
    bool,
> {
    Seq::new(n, |i: int| keep[i] && file_of(v, paths[i]) is Some)
}

/// Of some paths those are given that are kept and name a file, in their order, with
/// the file.
pub proof fn law_kept_paths_give_their_files(
    v: IndexView,
    paths: Seq<Seq<char>>,
    keep: Seq<bool>,
    n: nat,
) -> (at: Seq<int>)
    requires
        n <= paths.len(),
        n <= keep.len(),
    ensures
        picks(at, wanted_paths(v, paths, keep, n)),
        files_of_paths(v, paths, keep, n).len() == at.len(),
        forall|k: int|
            0 <= k < at.len() ==> #[trigger] files_of_paths(v, paths, keep, n)[k] == (IndexedView {
                path: paths[at[k]],
                file: file_of(v, paths[at[k]])->0,
            }),
    decreases n,
{
    let want = wanted_paths(v, paths, keep, n);
    if n == 0 {
        lemma_picks_none(want);
        Seq::empty()
    } else {
        let m = (n - 1) as nat;
        let at = law_kept_paths_give_their_files(v, paths, keep, m);
        let before = files_of_paths(v, paths, keep, m);
        assert(want.drop_last() =~= wanted_paths(v, paths, keep, m));
        lemma_picks_more(at, wanted_paths(v, paths, keep, m), want);
        let all = and_last(at, n - 1, want.last());
        let r = files_of_paths(v, paths, keep, n);
        assert forall|k: int| 0 <= k < all.len() implies #[trigger] r[k] == (IndexedView {
            path: paths[all[k]],
            file: file_of(v, paths[all[k]])->0,
        }) by {
            if k < at.len() {
                assert(r[k] == before[k]);
                assert(all[k] == at[k]);
            }
        }
        all
    }
}

/// The targets of a patch for a kind of files are the files of those paths of the index
/// that the patch is for, in the order of the paths.
pub proof fn law_targets_are_the_files_of_their_paths(
    v: IndexView,
    paths: Seq<Seq<char>>,
    patch: PatchId,
) -> (at: Seq<int>)
    requires
        patch != PatchId::Minimap,
        patch != PatchId::AtlasFog,
    ensures
        picks(
            at,
            Seq::new(
                paths.len(),
                |i: int| targets(patch, paths[i]) && file_of(v, paths[i]) is Some,
            ),
        ),
        target_files(v, paths, patch).len() == at.len(),
        forall|k: int|
            0 <= k < at.len() ==> #[trigger] target_files(v, paths, patch)[k] == (IndexedView {
                path: paths[at[k]],
                file: file_of(v, paths[at[k]])->0,
            }),
{
    let keep = paths.map_values(|p: Seq<char>| targets(patch, p));
    let at = law_kept_paths_give_their_files(v, paths, keep, paths.len());
    assert(exact_targets(patch).len() == 0);
    assert(wanted_paths(v, paths, keep, paths.len()) =~= Seq::new(
        paths.len(),
        |i: int| targets(patch, paths[i]) && file_of(v, paths[i]) is Some,
    ));
    at
}

/// The targets of the two patches for single files are those of the files that the
/// index has.
pub proof fn law_single_files_are_targets(v: IndexView, paths: Seq<Seq<char>>)
    ensures
        ({
            let first = "shaders/minimap_visibility_pixel.hlsl"@;
            let second = "shaders/minimap_blending_pixel.hlsl"@;
            let fog = "metadata/materials/environment/worldmap/worldmap_fogofwar.fxgraph"@;
            let none = Seq::<IndexedView>::empty();
            let a = match file_of(v, first) {
                Some(file) => seq![IndexedView { path: first, file }],
                None => none,
            };
            let b = match file_of(v, second) {
                Some(file) => seq![IndexedView { path: second, file }],
                None => none,
            };
            let c = match file_of(v, fog) {
                Some(file) => seq![IndexedView { path: fog, file }],
                None => none,
            };
            &&& target_files(v, paths, PatchId::Minimap) == a + b
            &&& target_files(v, paths, PatchId::AtlasFog) == c
        }),
{
    let two = exact_targets(PatchId::Minimap);
    let one = exact_targets(PatchId::AtlasFog);
    assert(exact_files(v, two, 0) =~= Seq::<IndexedView>::empty());
    assert(exact_files(v, one, 0) =~= Seq::<IndexedView>::empty());
    let first = "shaders/minimap_visibility_pixel.hlsl"@;
    let a = match file_of(v, first) {
        Some(file) => seq![IndexedView { path: first, file }],
        None => Seq::empty(),
    };
    assert(exact_files(v, two, 1) =~= a);
    let second = "shaders/minimap_blending_pixel.hlsl"@;
    let b = match file_of(v, second) {
        Some(file) => seq![IndexedView { path: second, file }],
        None => Seq::empty(),
    };
    assert(exact_files(v, two, 2) =~= a + b);
    let fog = "metadata/materials/environment/worldmap/worldmap_fogofwar.fxgraph"@;
    let c = match file_of(v, fog) {
        Some(file) => seq![IndexedView { path: fog, file }],
        None => Seq::empty(),
    };
    assert(exact_files(v, one, 1) =~= c);
}

proof fn lemma_shown_rows(rows: Seq<RowView>, hits: Seq<bool>, show_unnamed: bool, n: nat) -> (at: Seq<
    int,
>)
    requires
        n <= rows.len(),
        n <= hits.len(),
        n <= usize::MAX,
    ensures
        picks(at, Seq::new(n, |i: int| hits[i] && (rows[i].named || show_unnamed))),
        shown(rows, hits, show_unnamed, n).len() == at.len(),
        forall|k: int|
            0 <= k < at.len() ==> #[trigger] shown(rows, hits, show_unnamed, n)[k] == at[k],
    decreases n,
{
    let want = Seq::new(n, |i: int| hits[i] && (rows[i].named || show_unnamed));
    if n == 0 {
        lemma_picks_none(want);
        Seq::empty()
    } else {
        let m = (n - 1) as nat;
        let at = lemma_shown_rows(rows, hits, show_unnamed, m);
        let before = shown(rows, hits, show_unnamed, m);
        let less = Seq::new(m, |i: int| hits[i] && (rows[i].named || show_unnamed));
        assert(want.drop_last() =~= less);
        lemma_picks_more(at, less, want);
        let all = and_last(at, n - 1, want.last());
        let r = shown(rows, hits, show_unnamed, n);
        assert forall|k: int| 0 <= k < all.len() implies #[trigger] r[k] == all[k] by {
            if k < at.len() {
                assert(r[k] == before[k]);
                assert(all[k] == at[k]);
            }
        }
        all
    }
}

/// The search of a list shows the rows that it finds, in their order; rows without a
/// name only where they are to be shown.
pub proof fn law_search_shows_what_it_finds(v: EditorView) -> (at: Seq<int>)
    requires
        v.all_rows().len() <= usize::MAX,
    ensures
        picks(
            at,
            Seq::new(
                v.all_rows().len(),
                |i: int|
                    query_matches(
                        terms_from(v.search, 0),
                        v.all_rows()[i].search_lower,
                        v.all_rows()[i].display_lower,
                    ) && (v.all_rows()[i].named || v.show_unnamed),
            ),
        ),
        filtered(v).len() == at.len(),
        forall|k: int| 0 <= k < at.len() ==> #[trigger] filtered(v)[k] == at[k],
{
    let rows = v.all_rows();
    let hits = row_hits(terms_from(v.search, 0), rows);
    let at = lemma_shown_rows(rows, hits, v.show_unnamed, rows.len());
    assert(Seq::new(rows.len(), |i: int| hits[i] && (rows[i].named || v.show_unnamed))
        =~= Seq::new(
        rows.len(),
        |i: int|
            query_matches(terms_from(v.search, 0), rows[i].search_lower, rows[i].display_lower) && (
            rows[i].named || v.show_unnamed),
    ));
    at
}

proof fn lemma_found_mods(hits: Seq<bool>, n: nat) -> (at: Seq<int>)
    requires
        n <= hits.len(),
        n <= usize::MAX,
    ensures
        picks(at, hits.take(n as int)),
        found_mods(hits, n).len() == at.len(),
        forall|k: int|
            0 <= k < at.len() ==> #[trigger] found_mods(hits, n)[k] == ColorRowRef::Config(
                at[k] as usize,
            ),
    decreases n,
{
    let want = hits.take(n as int);
    if n == 0 {
        lemma_picks_none(want);
        Seq::empty()
    } else {
        let m = (n - 1) as nat;
        let at = lemma_found_mods(hits, m);
        let before = found_mods(hits, m);
        assert(want.drop_last() =~= hits.take(m as int));
        lemma_picks_more(at, hits.take(m as int), want);
        let all = and_last(at, n - 1, want.last());
        let r = found_mods(hits, n);
        assert forall|k: int| 0 <= k < all.len() implies #[trigger] r[k] == ColorRowRef::Config(
            all[k] as usize,
        ) by {
            if k < at.len() {
                assert(r[k] == before[k]);
                assert(all[k] == at[k]);
            }
        }
        all
    }
}

proof fn lemma_found_stats(
    ids: Seq<Seq<char>>,
    rows: Seq<StatView>,
    hits: Seq<bool>,
    n: nat,
) -> (at: Seq<int>)
    requires
        n <= hits.len(),
        n <= rows.len(),
        n <= usize::MAX,
    ensures
        picks(at, Seq::new(n, |i: int| hits[i] && !ids.contains(rows[i].stat_id))),
        found_stats(ids, rows, hits, n).len() == at.len(),
        forall|k: int|
            0 <= k < at.len() ==> #[trigger] found_stats(ids, rows, hits, n)[k]
                == ColorRowRef::Catalog(at[k] as usize),
    decreases n,
{
    let want = Seq::new(n, |i: int| hits[i] && !ids.contains(rows[i].stat_id));
    if n == 0 {
        lemma_picks_none(want);
        Seq::empty()
    } else {
        let m = (n - 1) as nat;
        let at = lemma_found_stats(ids, rows, hits, m);
        let before = found_stats(ids, rows, hits, m);
        let less = Seq::new(m, |i: int| hits[i] && !ids.contains(rows[i].stat_id));
        assert(want.drop_last() =~= less);
        lemma_picks_more(at, less, want);
        let all = and_last(at, n - 1, want.last());
        let r = found_stats(ids, rows, hits, n);
        assert forall|k: int| 0 <= k < all.len() implies #[trigger] r[k] == ColorRowRef::Catalog(
            all[k] as usize,
        ) by {
            if k < at.len() {
                assert(r[k] == before[k]);
                assert(all[k] == at[k]);
            }
        }
        all
    }
}

/// The color editor shows first the stats with a color that the search finds, then the
/// described stats that it finds and that have none, each list in its order.
pub proof fn law_color_search_shows_what_it_finds(
    ids: Seq<Seq<char>>,
    rows: Seq<StatView>,
    search: Seq<char>,
) -> (at: (Seq<int>, Seq<int>))
    requires
        ids.len() <= usize::MAX,
        rows.len() <= usize::MAX,
    ensures
        ({
            let terms = terms_from(search, 0);
            let r = color_rows(ids, rows, search);
            &&& picks(at.0, mod_hits(terms, ids, rows))
            &&& picks(
                at.1,
                Seq::new(
                    rows.len(),
                    |i: int|
                        query_matches(terms, rows[i].stat_id_lower, rows[i].text_lower)
                            && !ids.contains(rows[i].stat_id),
                ),
            )
            &&& r.len() == at.0.len() + at.1.len()
            &&& forall|k: int|
                0 <= k < at.0.len() ==> #[trigger] r[k] == ColorRowRef::Config(at.0[k] as usize)
            &&& forall|k: int|
                0 <= k < at.1.len() ==> #[trigger] r[at.0.len() + k] == ColorRowRef::Catalog(
                    at.1[k] as usize,
                )
        }),
{
    let terms = terms_from(search, 0);
    let a = mod_hits(terms, ids, rows);
    let b = stat_hits(terms, rows);
    let first = lemma_found_mods(a, ids.len());
    let second = lemma_found_stats(ids, rows, b, rows.len());
    assert(a.take(ids.len() as int) =~= a);
    assert(Seq::new(rows.len(), |i: int| b[i] && !ids.contains(rows[i].stat_id)) =~= Seq::new(
        rows.len(),
        |i: int|
            query_matches(terms, rows[i].stat_id_lower, rows[i].text_lower) && !ids.contains(
                rows[i].stat_id,
            ),
    ));
    let r = color_rows(ids, rows, search);
    assert forall|k: int| 0 <= k < second.len() implies #[trigger] r[first.len() + k]
        == ColorRowRef::Catalog(second[k] as usize) by {
        assert(r[first.len() + k] == found_stats(ids, rows, b, rows.len())[k]);
    }
    (first, second)
}

/// As many stats are counted as colored as are.
pub proof fn law_colored_stats_are_counted(v: Seq<ColorModEntry>, n: nat) -> (at: Seq<int>)
    requires
        n <= v.len(),
    ensures
        picks(at, Seq::new(n, |i: int| v[i].enabled)),
        enabled_mods(v, n) == at.len(),
    decreases n,
{
    let want = Seq::new(n, |i: int| v[i].enabled);
    if n == 0 {
        lemma_picks_none(want);
        Seq::empty()
    } else {
        let m = (n - 1) as nat;
        let at = law_colored_stats_are_counted(v, m);
        assert(want.drop_last() =~= Seq::new(m, |i: int| v[i].enabled));
        lemma_picks_more(at, Seq::new(m, |i: int| v[i].enabled), want);
        and_last(at, n - 1, want.last())
    }
}

/// As many rows are counted as having a level of their own as have one.
pub proof fn law_rows_with_a_level_are_counted(
    rows: Seq<RowView>,
    m: Map<Seq<char>, EffectLevel>,
    n: nat,
) -> (at: Seq<int>)
    requires
        n <= rows.len(),
    ensures
        picks(
            at,
            Seq::new(
                n,
                |i: int|
                    exists|k: int|
                        0 <= k < rows[i].keys.len() && m.contains_key(#[trigger] rows[i].keys[k]),
            ),
        ),
        kept_rows(rows, m, n) == at.len(),
    decreases n,
{
    let want = Seq::new(n, |i: int| has_override(m, rows[i].keys));
    assert(want =~= Seq::new(
        n,
        |i: int|
            exists|k: int|
                0 <= k < rows[i].keys.len() && m.contains_key(#[trigger] rows[i].keys[k]),
    ));
    if n == 0 {
        lemma_picks_none(want);
        Seq::empty()
    } else {
        let l = (n - 1) as nat;
        let at = law_rows_with_a_level_are_counted(rows, m, l);
        let less = Seq::new(l, |i: int| has_override(m, rows[i].keys));
        assert(less =~= Seq::new(
            l,
            |i: int|
                exists|k: int|
                    0 <= k < rows[i].keys.len() && m.contains_key(#[trigger] rows[i].keys[k]),
        ));
        assert(want.drop_last() =~= less);
        lemma_picks_more(at, less, want);
        and_last(at, n - 1, want.last())
    }
}

/// As many overrides are counted that keep an effect of no row as do.
pub proof fn law_kept_effects_without_rows_are_counted(
    rows: Seq<RowView>,
    s: Seq<OverrideView>,
    n: nat,
) -> (at: Seq<int>)
    requires
        n <= s.len(),
    ensures
        picks(
            at,
            Seq::new(
                n,
                |i: int|
                    s[i].level is Full && forall|k: int|
                        0 <= k < rows.len() ==> !(#[trigger] rows[k]).keys.contains(s[i].key),
            ),
        ),
        kept_keys(rows, s, n) == at.len(),
    decreases n,
{
    let want = Seq::new(
        n,
        |i: int|
            s[i].level is Full && forall|k: int|
                0 <= k < rows.len() ==> !(#[trigger] rows[k]).keys.contains(s[i].key),
    );
    if n == 0 {
        lemma_picks_none(want);
        Seq::empty()
    } else {
        let l = (n - 1) as nat;
        let at = law_kept_effects_without_rows_are_counted(rows, s, l);
        let less = Seq::new(
            l,
            |i: int|
                s[i].level is Full && forall|k: int|
                    0 <= k < rows.len() ==> !(#[trigger] rows[k]).keys.contains(s[i].key),
        );
        assert(want.drop_last() =~= less);
        lemma_picks_more(at, less, want);
        and_last(at, n - 1, want.last())
    }
}

/// As many rows are counted without a name as have none.
pub proof fn law_unnamed_rows_are_counted(rows: Seq<RowView>, n: nat) -> (at: Seq<int>)
    requires
        n <= rows.len(),
    ensures
        picks(at, Seq::new(n, |i: int| !rows[i].named)),
        unnamed_rows(rows, n) == at.len(),
    decreases n,
{
    let want = Seq::new(n, |i: int| !rows[i].named);
    if n == 0 {
        lemma_picks_none(want);
        Seq::empty()
    } else {
        let l = (n - 1) as nat;
        let at = law_unnamed_rows_are_counted(rows, l);
        assert(want.drop_last() =~= Seq::new(l, |i: int| !rows[i].named));
        lemma_picks_more(at, Seq::new(l, |i: int| !rows[i].named), want);
        and_last(at, n - 1, want.last())
    }
}

/// As many rows are counted without a name but with a level of their own as are so.
pub proof fn law_unnamed_rows_with_a_level_are_counted(
    rows: Seq<RowView>,
    m: Map<Seq<char>, EffectLevel>,
    n: nat,
) -> (at: Seq<int>)
    requires
        n <= rows.len(),
    ensures
        picks(
            at,
            Seq::new(
                n,
                |i: int|
                    !rows[i].named && exists|k: int|
                        0 <= k < rows[i].keys.len() && m.contains_key(#[trigger] rows[i].keys[k]),
            ),
        ),
        kept_unnamed_rows(rows, m, n) == at.len(),
    decreases n,
{
    let want = Seq::new(n, |i: int| !rows[i].named && has_override(m, rows[i].keys));
    assert(want =~= Seq::new(
        n,
        |i: int|
            !rows[i].named && exists|k: int|
                0 <= k < rows[i].keys.len() && m.contains_key(#[trigger] rows[i].keys[k]),
    ));
    if n == 0 {
        lemma_picks_none(want);
        Seq::empty()
    } else {
        let l = (n - 1) as nat;
        let at = law_unnamed_rows_with_a_level_are_counted(rows, m, l);
        let less = Seq::new(l, |i: int| !rows[i].named && has_override(m, rows[i].keys));
        assert(less =~= Seq::new(
            l,
            |i: int|
                !rows[i].named && exists|k: int|
                    0 <= k < rows[i].keys.len() && m.contains_key(#[trigger] rows[i].keys[k]),
        ));
        assert(want.drop_last() =~= less);
        lemma_picks_more(at, less, want);
        and_last(at, n - 1, want.last())
    }
}

/// The files of a bundle are those that lie in it, in their order.
pub proof fn law_files_of_a_bundle_are_picked(files: Seq<FileView>, b: u32, n: nat) -> (at: Seq<int>)
    requires
        n <= files.len(),
    ensures
        picks(at, Seq::new(n, |i: int| files[i].bundle_index == b)),
        in_bundle(files, b, n).len() == at.len(),
        forall|k: int| 0 <= k < at.len() ==> #[trigger] in_bundle(files, b, n)[k] == files[at[k]],
    decreases n,
{
    let want = Seq::new(n, |i: int| files[i].bundle_index == b);
    if n == 0 {
        lemma_picks_none(want);
        Seq::empty()
    } else {
        let l = (n - 1) as nat;
        let at = law_files_of_a_bundle_are_picked(files, b, l);
        let before = in_bundle(files, b, l);
        let less = Seq::new(l, |i: int| files[i].bundle_index == b);
        assert(want.drop_last() =~= less);
        lemma_picks_more(at, less, want);
        let all = and_last(at, n - 1, want.last());
        let r = in_bundle(files, b, n);
        assert forall|k: int| 0 <= k < all.len() implies #[trigger] r[k] == files[all[k]] by {
            if k < at.len() {
                assert(r[k] == before[k]);
                assert(all[k] == at[k]);
            }
        }
        all
    }
}

} // verus!
