//! Which files the patches are for.

use crate::bytes::byte_seqs;
use crate::index::{
    built_paths, file_of, files_of_paths, indexed_views, lemma_files_of_paths_frame,
    normalize_chars, normalized, BundleIndex, IndexError, IndexView, IndexedPath, IndexedView,
};
use crate::patches::{name_of, patch_ids, patch_label, unique_patches, uniques, PatchId};
use crate::text::{
    chars_of, contains_text, ends_with, has_prefix, has_suffix, has_text, occurs_at, same_chars,
    starts_with,
};
use vstd::prelude::*;

verus! {

/// Whether a path begins so, in lower case and with slashes.
pub open spec fn under(path: Seq<char>, prefix: Seq<char>) -> bool {
    starts_with(normalized(path), prefix)
}

/// Whether a path ends so, in lower case and with slashes.
pub open spec fn ending(path: Seq<char>, suffix: Seq<char>) -> bool {
    ends_with(normalized(path), suffix)
}

fn begins(path: &[char], prefix: &str) -> (r: bool)
    ensures
        r == starts_with(path@, prefix@),
{
    let p = chars_of(prefix);
    has_prefix(path, p.as_slice())
}

fn ends(path: &[char], suffix: &str) -> (r: bool)
    ensures
        r == ends_with(path@, suffix@),
{
    let p = chars_of(suffix);
    has_suffix(path, p.as_slice())
}

fn has(path: &[char], part: &str) -> (r: bool)
    ensures
        r == contains_text(path@, part@),
{
    let p = chars_of(part);
    has_text(path, p.as_slice())
}

/// Whether a path begins so, whatever the case of its letters and the direction
/// of its slashes.
pub fn starts_with_path_ci(path: &str, prefix: &str) -> (r: bool)
    ensures
        r == under(path@, normalized(prefix@)),
{
    let p = normalize_chars(path);
    let q = normalize_chars(prefix);
    has_prefix(p.as_slice(), q.as_slice())
}

/// Whether a path ends so, whatever the case of its letters and the direction of
/// its slashes.
pub fn ends_with_path_ci(path: &str, suffix: &str) -> (r: bool)
    ensures
        r == ending(path@, normalized(suffix@)),
{
    let p = normalize_chars(path);
    let q = normalize_chars(suffix);
    has_suffix(p.as_slice(), q.as_slice())
}

/// Whether two paths are the same, whatever the case of their letters and the
/// direction of their slashes.
pub fn eq_path_ci(path: &str, pattern: &str) -> (r: bool)
    ensures
        r == (normalized(path@) == normalized(pattern@)),
{
    let p = normalize_chars(path);
    let q = normalize_chars(pattern);
    same_chars(p.as_slice(), q.as_slice())
}

/// The endings of effect data.
pub open spec fn effect_ext(path: Seq<char>) -> bool {
    ending(path, ".ao"@) || ending(path, ".aoc"@) || ending(path, ".pet"@) || ending(path, ".epk"@)
        || ending(path, ".trl"@)
}

/// The endings of animations and scripts, which can hold sound blocks.
pub open spec fn anim_ext(path: Seq<char>) -> bool {
    ending(path, ".ao"@) || ending(path, ".aoc"@) || ending(path, ".ot"@) || ending(path, ".otc"@)
}

/// Whether a file belongs to the scene at startup, which must stay as it is: the
/// paths of character selection, in all their spellings.
pub open spec fn startup_scene(path: Seq<char>) -> bool {
    let p = normalized(path);
    contains_text(p, "characterselection"@) || contains_text(p, "char_selection"@)
}

/// Whether a path is one of those whose sounds are taken out.
pub open spec fn sound_target(path: Seq<char>) -> bool {
    &&& !startup_scene(path)
    &&& under(path, "metadata/effects"@) || under(path, "metadata/characters"@) || under(
        path,
        "metadata/monsters"@,
    ) || under(path, "metadata/terrain"@) || under(path, "metadata/environment"@)
    &&& !under(path, "metadata/environmentsettings"@)
    &&& anim_ext(path)
}

/// The paths of the patches that are for single files.
pub open spec fn exact_targets(patch: PatchId) -> Seq<Seq<char>> {
    match patch {
        PatchId::Minimap => seq![
            "shaders/minimap_visibility_pixel.hlsl"@,
            "shaders/minimap_blending_pixel.hlsl"@,
        ],
        PatchId::AtlasFog => seq![
            "metadata/materials/environment/worldmap/worldmap_fogofwar.fxgraph"@,
        ],
        _ => Seq::empty(),
    }
}

/// What holds of the paths of the patches that are for kinds of files.
pub open spec fn kind_of_target(patch: PatchId, path: Seq<char>) -> bool {
    match patch {
        PatchId::Camera => under(path, "metadata/"@) && (ending(path, ".ot"@) || ending(
            path,
            ".otc"@,
        )),
        PatchId::Minimap | PatchId::AtlasFog => false,
        PatchId::Fog
        | PatchId::Rain
        | PatchId::Clouds
        | PatchId::EnvParticles
        | PatchId::Shadow
        | PatchId::Light => under(path, "metadata/environmentsettings"@) && ending(path, ".env"@),
        PatchId::Delirium => under(path, "metadata/effects/environment/league_affliction"@) && (
        ending(path, ".ao"@) || ending(path, ".aoc"@)),
        PatchId::Particles => under(path, "metadata/particles"@) && (ending(path, ".pet"@)
            || ending(path, ".trl"@)),
        PatchId::Effects => under(path, "metadata/effects/spells"@) && (ending(path, ".aoc"@)
            || ending(path, ".ao"@)),
        PatchId::DisableSounds => sound_target(path),
        PatchId::SkillSounds => under(path, "metadata/effects/spells"@) && !under(
            path,
            "metadata/effects/spells/monsters_effects"@,
        ) && anim_ext(path),
        PatchId::MonsterSounds => (under(path, "metadata/effects/spells/monsters_effects"@)
            || under(path, "metadata/monsters"@)) && anim_ext(path),
        PatchId::MtxSoft => under(path, "metadata/effects/microtransactions"@) && effect_ext(path),
        PatchId::BlackScreen | PatchId::ColorMods | PatchId::MonsterHpBar => false,
    }
}

/// Whether a patch is for the file at that path.
pub open spec fn targets(patch: PatchId, path: Seq<char>) -> bool {
    match patch {
        PatchId::Minimap => normalized(path) == "shaders/minimap_visibility_pixel.hlsl"@
            || normalized(path) == "shaders/minimap_blending_pixel.hlsl"@,
        PatchId::AtlasFog => normalized(path)
            == "metadata/materials/environment/worldmap/worldmap_fogofwar.fxgraph"@,
        _ => kind_of_target(patch, path),
    }
}

/// Whether a patch changes the file at that path, once the file is selected.
pub open spec fn applies(patch: PatchId, path: Seq<char>) -> bool {
    match patch {
        PatchId::Camera => ending(path, ".ot"@) || ending(path, ".otc"@),
        PatchId::Minimap => ending(path, "minimap_visibility_pixel.hlsl"@) || ending(
            path,
            "minimap_blending_pixel.hlsl"@,
        ),
        PatchId::AtlasFog => targets(PatchId::AtlasFog, path),
        _ => kind_of_target(patch, path),
    }
}

/// The files that belong to the scene at startup.
pub fn is_startup_scene_protected(path: &str) -> (r: bool)
    ensures
        r == startup_scene(path@),
{
    let p = normalize_chars(path);
    startup(p.as_slice())
}

fn startup(p: &[char]) -> (r: bool)
    ensures
        r == (contains_text(p@, "characterselection"@) || contains_text(p@, "char_selection"@)),
{
    has(p, "characterselection") || has(p, "char_selection")
}

fn is_effect_ext(p: &[char]) -> (r: bool)
    ensures
        r == (ends_with(p@, ".ao"@) || ends_with(p@, ".aoc"@) || ends_with(p@, ".pet"@)
            || ends_with(p@, ".epk"@) || ends_with(p@, ".trl"@)),
{
    ends(p, ".ao") || ends(p, ".aoc") || ends(p, ".pet") || ends(p, ".epk") || ends(p, ".trl")
}

fn is_anim_ext(p: &[char]) -> (r: bool)
    ensures
        r == (ends_with(p@, ".ao"@) || ends_with(p@, ".aoc"@) || ends_with(p@, ".ot"@)
            || ends_with(p@, ".otc"@)),
{
    ends(p, ".ao") || ends(p, ".aoc") || ends(p, ".ot") || ends(p, ".otc")
}

/// Whether a path is one of those whose sounds are taken out.
pub fn is_sound_target(path: &str) -> (r: bool)
    ensures
        r == sound_target(path@),
{
    let p = normalize_chars(path);
    let p = p.as_slice();
    !startup(p) && (begins(p, "metadata/effects") || begins(p, "metadata/characters") || begins(
        p,
        "metadata/monsters",
    ) || begins(p, "metadata/terrain") || begins(p, "metadata/environment")) && !begins(
        p,
        "metadata/environmentsettings",
    ) && is_anim_ext(p)
}

fn is_kind_of_target(patch: PatchId, path: &str) -> (r: bool)
    ensures
        r == kind_of_target(patch, path@),
{
    let chars = normalize_chars(path);
    let p = chars.as_slice();
    match patch {
        PatchId::Camera => begins(p, "metadata/") && (ends(p, ".ot") || ends(p, ".otc")),
        PatchId::Minimap | PatchId::AtlasFog => false,
        PatchId::Fog
        | PatchId::Rain
        | PatchId::Clouds
        | PatchId::EnvParticles
        | PatchId::Shadow
        | PatchId::Light => begins(p, "metadata/environmentsettings") && ends(p, ".env"),
        PatchId::Delirium => begins(p, "metadata/effects/environment/league_affliction") && (ends(
            p,
            ".ao",
        ) || ends(p, ".aoc")),
        PatchId::Particles => begins(p, "metadata/particles") && (ends(p, ".pet") || ends(
            p,
            ".trl",
        )),
        PatchId::Effects => begins(p, "metadata/effects/spells") && (ends(p, ".aoc") || ends(
            p,
            ".ao",
        )),
        PatchId::DisableSounds => is_sound_target(path),
        PatchId::SkillSounds => begins(p, "metadata/effects/spells") && !begins(
            p,
            "metadata/effects/spells/monsters_effects",
        ) && is_anim_ext(p),
        PatchId::MonsterSounds => (begins(p, "metadata/effects/spells/monsters_effects") || begins(
            p,
            "metadata/monsters",
        )) && is_anim_ext(p),
        PatchId::MtxSoft => begins(p, "metadata/effects/microtransactions") && is_effect_ext(p),
        PatchId::BlackScreen | PatchId::ColorMods | PatchId::MonsterHpBar => false,
    }
}

/// Whether a patch is for the file at that path.
pub fn patch_targets_path(patch: PatchId, path: &str) -> (r: bool)
    ensures
        r == targets(patch, path@),
{
    match patch {
        PatchId::Minimap => {
            let p = normalize_chars(path);
            let a = chars_of("shaders/minimap_visibility_pixel.hlsl");
            let b = chars_of("shaders/minimap_blending_pixel.hlsl");
            same_chars(p.as_slice(), a.as_slice()) || same_chars(p.as_slice(), b.as_slice())
        },
        PatchId::AtlasFog => {
            let p = normalize_chars(path);
            let a = chars_of("metadata/materials/environment/worldmap/worldmap_fogofwar.fxgraph");
            same_chars(p.as_slice(), a.as_slice())
        },
        _ => is_kind_of_target(patch, path),
    }
}

/// Whether a patch changes the file at that path, once the file is selected.
pub fn patch_applies_path(patch: PatchId, path: &str) -> (r: bool)
    ensures
        r == applies(patch, path@),
{
    match patch {
        PatchId::Camera => {
            let p = normalize_chars(path);
            ends(p.as_slice(), ".ot") || ends(p.as_slice(), ".otc")
        },
        PatchId::Minimap => {
            let p = normalize_chars(path);
            ends(p.as_slice(), "minimap_visibility_pixel.hlsl") || ends(
                p.as_slice(),
                "minimap_blending_pixel.hlsl",
            )
        },
        PatchId::AtlasFog => patch_targets_path(patch, path),
        _ => is_kind_of_target(patch, path),
    }
}

/// Every file that a patch is for is one that it changes.
pub proof fn law_targets_are_patched(patch: PatchId, path: Seq<char>)
    requires
        targets(patch, path),
    ensures
        applies(patch, path),
{
    if patch is Minimap {
        reveal_strlit("shaders/minimap_visibility_pixel.hlsl");
        reveal_strlit("shaders/minimap_blending_pixel.hlsl");
        reveal_strlit("minimap_visibility_pixel.hlsl");
        reveal_strlit("minimap_blending_pixel.hlsl");
        let p = normalized(path);
        if p == "shaders/minimap_visibility_pixel.hlsl"@ {
            let s = "minimap_visibility_pixel.hlsl"@;
            assert(p.subrange(p.len() - s.len(), p.len() as int) =~= s);
        } else {
            let s = "minimap_blending_pixel.hlsl"@;
            assert(p.subrange(p.len() - s.len(), p.len() as int) =~= s);
        }
    }
}

/// The sounds of the scene at startup are no target of the patch that takes out
/// all sounds.
pub proof fn law_startup_sounds_are_no_target(path: Seq<char>)
    requires
        startup_scene(path),
    ensures
        !targets(PatchId::DisableSounds, path),
{
}

proof fn lemma_prefix_contains(p: Seq<char>, prefix: Seq<char>, k: int, part: Seq<char>)
    requires
        starts_with(p, prefix),
        occurs_at(prefix, k, part),
    ensures
        contains_text(p, part),
{
    assert(p.subrange(k, k + part.len()) =~= part) by {
        assert forall|i: int| 0 <= i < part.len() implies p[k + i] == part[i] by {
            assert(p.subrange(0, prefix.len() as int)[k + i] == prefix[k + i]);
            assert(prefix.subrange(k, k + part.len())[i] == part[i]);
        }
    }
    assert(occurs_at(p, k, part));
}

/// The folders of character selection belong to the scene at startup.
pub proof fn law_character_selection_is_startup_scene(path: Seq<char>)
    requires
        under(path, "metadata/terrain/characterselection"@) || under(path, "metadata/environment/characterselection"@) || under(path, "metadata/doodads/characterselection"@) || under(path, "metadata/materials/characterselection"@) || under(path, "metadata/effects/characterselection"@),
    ensures
        startup_scene(path),
{
    reveal_strlit("characterselection");
    let part = "characterselection"@;
    reveal_strlit("metadata/terrain/characterselection");
    if under(path, "metadata/terrain/characterselection"@) {
        let prefix = "metadata/terrain/characterselection"@;
        assert(prefix.subrange(17, prefix.len() as int) =~= part);
        lemma_prefix_contains(normalized(path), prefix, 17, part);
    }
    reveal_strlit("metadata/environment/characterselection");
    if under(path, "metadata/environment/characterselection"@) {
        let prefix = "metadata/environment/characterselection"@;
        assert(prefix.subrange(21, prefix.len() as int) =~= part);
        lemma_prefix_contains(normalized(path), prefix, 21, part);
    }
    reveal_strlit("metadata/doodads/characterselection");
    if under(path, "metadata/doodads/characterselection"@) {
        let prefix = "metadata/doodads/characterselection"@;
        assert(prefix.subrange(17, prefix.len() as int) =~= part);
        lemma_prefix_contains(normalized(path), prefix, 17, part);
    }
    reveal_strlit("metadata/materials/characterselection");
    if under(path, "metadata/materials/characterselection"@) {
        let prefix = "metadata/materials/characterselection"@;
        assert(prefix.subrange(19, prefix.len() as int) =~= part);
        lemma_prefix_contains(normalized(path), prefix, 19, part);
    }
    reveal_strlit("metadata/effects/characterselection");
    if under(path, "metadata/effects/characterselection"@) {
        let prefix = "metadata/effects/characterselection"@;
        assert(prefix.subrange(17, prefix.len() as int) =~= part);
        lemma_prefix_contains(normalized(path), prefix, 17, part);
    }
}

/// The files of a path list that exist, with their paths.
pub open spec fn exact_files(v: IndexView, paths: Seq<Seq<char>>, n: nat) -> Seq<IndexedView>
    decreases n,
{
    if n == 0 {
        Seq::empty()
    } else {
        let before = exact_files(v, paths, (n - 1) as nat);
        match file_of(v, paths[n - 1]) {
            Some(file) => before.push(IndexedView { path: paths[n - 1], file }),
            None => before,
        }
    }
}

/// The files that a patch is for. `paths` are the paths of the index.
pub open spec fn target_files(v: IndexView, paths: Seq<Seq<char>>, patch: PatchId) -> Seq<
    IndexedView,
> {
    let exact = exact_targets(patch);
    if exact.len() > 0 {
        exact_files(v, exact, exact.len())
    } else {
        files_of_paths(
            v,
            paths,
            paths.map_values(|p: Seq<char>| targets(patch, p)),
            paths.len(),
        )
    }
}

/// The files that the first `n` patches are for, patch by patch; or the first
/// patch that is for none.
pub open spec fn all_targets(
    v: IndexView,
    paths: Seq<Seq<char>>,
    patches: Seq<PatchId>,
    n: nat,
) -> Result<Seq<IndexedView>, PatchId>
    decreases n,
{
    if n == 0 {
        Ok(Seq::empty())
    } else {
        match all_targets(v, paths, patches, (n - 1) as nat) {
            Err(id) => Err(id),
            Ok(before) => {
                let files = target_files(v, paths, patches[n - 1]);
                if files.len() == 0 {
                    Err(patches[n - 1])
                } else {
                    Ok(before + files)
                }
            },
        }
    }
}

/// Whether one of the patches is for a kind of files, so that the paths of the
/// index are needed.
pub open spec fn needs_paths(patches: Seq<PatchId>) -> bool {
    exists|i: int| 0 <= i < patches.len() && exact_targets(#[trigger] patches[i]).len() == 0
}

/// Why there are no targets.
#[derive(Debug, Clone, Copy, PartialEq, Eq)]
pub enum TargetError {
    /// The paths of the index cannot be built.
    Index(IndexError),
    /// No file is there for a patch.
    NoFiles(PatchId),
}

/// What is said where no file is there for a patch.
pub fn no_files_message(patch: PatchId) -> (r: String)
    ensures
        r@ == "patch '"@ + name_of(patch)
            + "' has no matching files in this game version;\nverify game files or wait for a tiny-poe2smoother update"@,
{
    let mut r = "patch '".to_owned();
    r.append(patch_label(patch));
    r.append(
        "' has no matching files in this game version;\nverify game files or wait for a tiny-poe2smoother update",
    );
    r
}

/// The paths of the single files that a patch is for.
pub fn exact_patch_targets(patch: PatchId) -> (r: Vec<&'static str>)
    ensures
        crate::blocks::str_views(r@) == exact_targets(patch),
{
    let mut r: Vec<&'static str> = Vec::new();
    match patch {
        PatchId::Minimap => {
            r.push("shaders/minimap_visibility_pixel.hlsl");
            r.push("shaders/minimap_blending_pixel.hlsl");
        },
        PatchId::AtlasFog => {
            r.push("metadata/materials/environment/worldmap/worldmap_fogofwar.fxgraph");
        },
        _ => {},
    }
    assert(crate::blocks::str_views(r@) =~= exact_targets(patch));
    r
}

fn find_exact_files(index: &BundleIndex, paths: &Vec<&'static str>) -> (r: Vec<IndexedPath>)
    ensures
        indexed_views(r@) == exact_files(
            index@,
            crate::blocks::str_views(paths@),
            paths@.len(),
        ),
{
    let ghost all = crate::blocks::str_views(paths@);
    let n: usize = paths.len();
    let mut r: Vec<IndexedPath> = Vec::new();
    let mut i: usize = 0;
    assert(indexed_views(r@) =~= exact_files(index@, all, 0));
    while i < n
        invariant
            i <= n == paths@.len(),
            all == crate::blocks::str_views(paths@),
            indexed_views(r@) == exact_files(index@, all, i as nat),
        decreases n - i,
    {
        let ghost before = indexed_views(r@);
        assert(all[i as int] == paths@[i as int]@);
        match index.file_by_path(paths[i]) {
            Some(file) => {
                let one = IndexedPath { path: paths[i].to_string(), file: file.clone() };
                let ghost view = one@;
                r.push(one);
                assert(indexed_views(r@) =~= before.push(view));
            },
            None => {},
        }
        i = i + 1;
    }
    r
}

proof fn lemma_exact_files_frame(a: IndexView, b: IndexView, paths: Seq<Seq<char>>, n: nat)
    requires
        a.files == b.files,
        a.hash_mode == b.hash_mode,
    ensures
        exact_files(a, paths, n) == exact_files(b, paths, n),
    decreases n,
{
    if n > 0 {
        lemma_exact_files_frame(a, b, paths, (n - 1) as nat);
    }
}

/// Which paths are built has no part in what lies at a path.
proof fn lemma_target_files_frame(a: IndexView, b: IndexView, paths: Seq<Seq<char>>, patch: PatchId)
    requires
        a.files == b.files,
        a.hash_mode == b.hash_mode,
    ensures
        target_files(a, paths, patch) == target_files(b, paths, patch),
{
    lemma_exact_files_frame(a, b, exact_targets(patch), exact_targets(patch).len());
    lemma_files_of_paths_frame(
        a,
        b,
        paths,
        paths.map_values(|p: Seq<char>| targets(patch, p)),
        paths.len(),
    );
}

/// A patch without files is an error, whatever patches follow.
proof fn lemma_all_targets_fails(
    v: IndexView,
    paths: Seq<Seq<char>>,
    patches: Seq<PatchId>,
    i: nat,
    n: nat,
)
    requires
        i <= n,
        all_targets(v, paths, patches, i) is Err,
    ensures
        all_targets(v, paths, patches, n) == all_targets(v, paths, patches, i),
    decreases n,
{
    if i < n {
        lemma_all_targets_fails(v, paths, patches, i, (n - 1) as nat);
    }
}

/// Patches for single files do not look at the paths of the index.
proof fn lemma_exact_paths_unused(
    v: IndexView,
    a: Seq<Seq<char>>,
    b: Seq<Seq<char>>,
    patch: PatchId,
)
    requires
        a == b || exact_targets(patch).len() > 0,
    ensures
        target_files(v, a, patch) == target_files(v, b, patch),
{
}

fn find_targets(index: &mut BundleIndex, patch: PatchId, decoded: &Vec<Vec<u8>>) -> (r: Vec<
    IndexedPath,
>)
    requires
        exact_targets(patch).len() == 0 ==> old(index)@.paths is Some,
    ensures
        final(index)@ == old(index)@,
        indexed_views(r@) == target_files(
            old(index)@,
            match old(index)@.paths {
                Some(paths) => paths,
                None => Seq::empty(),
            },
            patch,
        ),
{
    let exact = exact_patch_targets(patch);
    if exact.len() > 0 {
        assert(crate::blocks::str_views(exact@).len() == exact@.len());
        return find_exact_files(index, &exact);
    }
    assert(crate::blocks::str_views(exact@).len() == 0);
    let ghost paths = index@.paths->0;
    let ghost wanted = paths.map_values(|p: Seq<char>| targets(patch, p));
    let predicate = |path: &str| -> (b: bool)
        ensures
            b == targets(patch, path@),
        { patch_targets_path(patch, path) };
    match index.matching_paths_by(decoded, predicate) {
        Ok(found) => {
            proof {
                let (keep, args) = choose|keep: Seq<bool>, args: Seq<&str>|
                    {
                        &&& keep.len() == paths.len()
                        &&& args.len() == paths.len()
                        &&& forall|i: int|
                            0 <= i < keep.len() ==> (#[trigger] args[i])@ == paths[i]
                                && call_ensures(predicate, (args[i],), keep[i])
                        &&& indexed_views(found@) == #[trigger] files_of_paths(
                            old(index)@,
                            paths,
                            keep,
                            args.len(),
                        )
                    };
                assert forall|i: int| 0 <= i < keep.len() implies keep[i] == wanted[i] by {
                    assert(args[i]@ == paths[i]);
                }
                assert(keep =~= wanted);
            }
            found
        },
        Err(_) => {
            assert(false);
            Vec::new()
        },
    }
}

/// The files that the patches are for, patch by patch, each patch counted once.
/// `decoded` is what the codec wrote for the chunks of the index's directory
/// data.
pub fn collect_patch_targets(
    index: &mut BundleIndex,
    patches: &[PatchId],
    decoded: &Vec<Vec<u8>>,
) -> (r: Result<Vec<IndexedPath>, TargetError>)
    ensures
        ({
            let ids = uniques(patches@, patches@.len());
            let built = built_paths(old(index)@, byte_seqs(decoded@));
            if needs_paths(ids) && built is Err {
                &&& *final(index) == *old(index)
                &&& match r {
                    Err(TargetError::Index(e)) => built == Err::<Seq<Seq<char>>, IndexError>(e),
                    _ => false,
                }
            } else {
                let paths = if needs_paths(ids) {
                    built->Ok_0
                } else {
                    Seq::empty()
                };
                &&& final(index)@ == if needs_paths(ids) {
                    IndexView { paths: Some(paths), ..old(index)@ }
                } else {
                    old(index)@
                }
                &&& match r {
                    Ok(found) => all_targets(old(index)@, paths, ids, ids.len()) == Ok::<
                        Seq<IndexedView>,
                        PatchId,
                    >(indexed_views(found@)),
                    Err(TargetError::NoFiles(id)) => all_targets(
                        old(index)@,
                        paths,
                        ids,
                        ids.len(),
                    ) == Err::<Seq<IndexedView>, PatchId>(id),
                    _ => false,
                }
            }
        }),
{
    let ids = unique_patches(patches);
    let n: usize = ids.len();
    let ghost start = index@;
    let ghost built = built_paths(index@, byte_seqs(decoded@));
    let mut broad: bool = false;
    let mut i: usize = 0;
    while i < n
        invariant
            i <= n == ids@.len(),
            broad == exists|k: int|
                0 <= k < i && exact_targets(#[trigger] ids@[k]).len() == 0,
        decreases n - i,
    {
        let exact = exact_patch_targets(ids[i]);
        if exact.len() == 0 {
            assert(crate::blocks::str_views(exact@).len() == 0);
            broad = true;
        } else {
            assert(crate::blocks::str_views(exact@).len() > 0);
        }
        i = i + 1;
    }
    let ghost paths = if broad {
        built->Ok_0
    } else {
        Seq::empty()
    };
    if broad {
        match index.ensure_paths_built(decoded) {
            Ok(_) => {},
            Err(e) => return Err(TargetError::Index(e)),
        }
    }
    let ghost ready = index@;
    let mut out: Vec<IndexedPath> = Vec::new();
    let mut i: usize = 0;
    assert(indexed_views(out@) =~= Seq::<IndexedView>::empty());
    while i < n
        invariant
            i <= n == ids@.len(),
            index@ == ready,
            ready == (if broad {
                IndexView { paths: Some(paths), ..start }
            } else {
                start
            }),
            broad == needs_paths(ids@),
            all_targets(start, paths, ids@, i as nat) == Ok::<Seq<IndexedView>, PatchId>(
                indexed_views(out@),
            ),
            start == old(index)@,
            ids@ == uniques(patches@, patches@.len()),
            built == built_paths(start, byte_seqs(decoded@)),
            broad ==> built is Ok,
            paths == (if broad {
                built->Ok_0
            } else {
                Seq::empty()
            }),
        decreases n - i,
    {
        let ghost before = indexed_views(out@);
        assert(exact_targets(ids@[i as int]).len() == 0 ==> needs_paths(ids@));
        let mut files = find_targets(index, ids[i], decoded);
        proof {
            let known = match ready.paths {
                Some(p) => p,
                None => Seq::empty(),
            };
            lemma_target_files_frame(start, ready, known, ids@[i as int]);
            lemma_exact_paths_unused(start, known, paths, ids@[i as int]);
        }
        if files.len() == 0 {
            assert(indexed_views(files@).len() == 0);
            proof {
                lemma_all_targets_fails(start, paths, ids@, (i + 1) as nat, ids@.len());
            }
            return Err(TargetError::NoFiles(ids[i]));
        }
        let ghost more = indexed_views(files@);
        out.append(&mut files);
        assert(indexed_views(out@) =~= before + more);
        i = i + 1;
    }
    Ok(out)
}

proof fn lemma_no_paths_kept(v: IndexView, paths: Seq<Seq<char>>, keep: Seq<bool>, n: nat)
    requires
        n <= keep.len(),
        forall|i: int| 0 <= i < n ==> !#[trigger] keep[i],
    ensures
        files_of_paths(v, paths, keep, n).len() == 0,
    decreases n,
{
    if n > 0 {
        lemma_no_paths_kept(v, paths, keep, (n - 1) as nat);
    }
}

/// A patch whose files are not known is reported as one without files, unless one
/// before it is.
pub proof fn law_patches_without_files_are_reported(
    v: IndexView,
    paths: Seq<Seq<char>>,
    patches: Seq<PatchId>,
    i: int,
)
    requires
        0 <= i < patches.len(),
        patches[i] is BlackScreen || patches[i] is ColorMods || patches[i] is MonsterHpBar,
    ensures
        all_targets(v, paths, patches, patches.len()) is Err,
        all_targets(v, paths, patches, i as nat) is Ok ==> all_targets(
            v,
            paths,
            patches,
            patches.len(),
        ) == Err::<Seq<IndexedView>, PatchId>(patches[i]),
{
    let patch = patches[i];
    let keep = paths.map_values(|p: Seq<char>| targets(patch, p));
    lemma_no_paths_kept(v, paths, keep, paths.len());
    lemma_all_targets_fails(v, paths, patches, (i + 1) as nat, patches.len());
}

/// Whether a path is in lower case and has slashes.
spec fn is_normal(path: Seq<char>) -> bool {
    forall|i: int|
        0 <= i < path.len() ==> #[trigger] path[i] != '\\' && !('A' <= path[i] <= 'Z')
}

proof fn lemma_normal(path: Seq<char>)
    requires
        is_normal(path),
    ensures
        normalized(path) == path,
{
    assert(normalized(path) =~= path);
}

/// A path made of a beginning and an ending has both.
proof fn lemma_path_of(prefix: Seq<char>, suffix: Seq<char>)
    requires
        is_normal(prefix),
        is_normal(suffix),
    ensures
        under(prefix + suffix, prefix),
        ending(prefix + suffix, suffix),
        normalized(prefix + suffix) == prefix + suffix,
{
    let path = prefix + suffix;
    lemma_normal(path);
    assert(path.subrange(0, prefix.len() as int) =~= prefix);
    assert(path.subrange(path.len() - suffix.len(), path.len() as int) =~= suffix);
}

/// A path without a letter does not hold a text that begins with it.
proof fn lemma_not_in(path: Seq<char>, text: Seq<char>, c: char)
    requires
        text.len() > 0,
        text[0] == c,
        !path.contains(c),
    ensures
        !contains_text(path, text),
{
    if contains_text(path, text) {
        let i = choose|i: int| occurs_at(path, i, text);
        assert(path.subrange(i, i + text.len())[0] == path[i]);
        assert(path.contains(path[i]));
    }
}

/// A path that some patch is for.
spec fn sample_path(patch: PatchId) -> Seq<char> {
    match patch {
        PatchId::Camera => "metadata/"@ + ".ot"@,
        PatchId::Minimap => "shaders/minimap_visibility_pixel.hlsl"@,
        PatchId::AtlasFog =>
            "metadata/materials/environment/worldmap/worldmap_fogofwar.fxgraph"@,
        PatchId::Delirium => "metadata/effects/environment/league_affliction"@ + ".ao"@,
        PatchId::Particles => "metadata/particles"@ + ".pet"@,
        PatchId::Effects | PatchId::SkillSounds => "metadata/effects/spells"@ + ".ao"@,
        PatchId::DisableSounds => "metadata/terrain"@ + ".ao"@,
        PatchId::MonsterSounds => "metadata/monsters"@ + ".ao"@,
        PatchId::MtxSoft => "metadata/effects/microtransactions"@ + ".ao"@,
        _ => "metadata/environmentsettings"@ + ".env"@,
    }
}

/// Each listed patch is for some file.
pub proof fn law_listed_patches_are_for_files(id: PatchId)
    requires
        patch_ids().contains(id),
    ensures
        exists|path: Seq<char>| targets(id, path),
{
    let path = sample_path(id);
    assert(targets(id, path)) by {
        reveal_strlit(".ao");
        match id {
            PatchId::Camera => {
                reveal_strlit("metadata/");
                reveal_strlit(".ot");
                lemma_path_of("metadata/"@, ".ot"@);
            },
            PatchId::Minimap => {
                reveal_strlit("shaders/minimap_visibility_pixel.hlsl");
                lemma_normal(path);
            },
            PatchId::AtlasFog => {
                reveal_strlit("metadata/materials/environment/worldmap/worldmap_fogofwar.fxgraph");
                lemma_normal(path);
            },
            PatchId::Delirium => {
                reveal_strlit("metadata/effects/environment/league_affliction");
                lemma_path_of("metadata/effects/environment/league_affliction"@, ".ao"@);
            },
            PatchId::Particles => {
                reveal_strlit("metadata/particles");
                reveal_strlit(".pet");
                lemma_path_of("metadata/particles"@, ".pet"@);
            },
            PatchId::Effects | PatchId::SkillSounds => {
                reveal_strlit("metadata/effects/spells");
                reveal_strlit("metadata/effects/spells/monsters_effects");
                lemma_path_of("metadata/effects/spells"@, ".ao"@);
            },
            PatchId::DisableSounds => {
                reveal_strlit("metadata/terrain");
                reveal_strlit("metadata/environmentsettings");
                reveal_strlit("characterselection");
                reveal_strlit("char_selection");
                lemma_path_of("metadata/terrain"@, ".ao"@);
                lemma_not_in(path, "characterselection"@, 'c');
                lemma_not_in(path, "char_selection"@, 'c');
            },
            PatchId::MonsterSounds => {
                reveal_strlit("metadata/monsters");
                lemma_path_of("metadata/monsters"@, ".ao"@);
            },
            PatchId::MtxSoft => {
                reveal_strlit("metadata/effects/microtransactions");
                lemma_path_of("metadata/effects/microtransactions"@, ".ao"@);
            },
            _ => {
                reveal_strlit("metadata/environmentsettings");
                reveal_strlit(".env");
                lemma_path_of("metadata/environmentsettings"@, ".env"@);
            },
        }
    }
}

/// Where each listed patch has a file in the index, the targets of every selection
/// of listed patches can be collected, and so those of all of them.
pub proof fn law_listed_patches_can_be_collected(
    v: IndexView,
    paths: Seq<Seq<char>>,
    patches: Seq<PatchId>,
    n: nat,
)
    requires
        n <= patches.len(),
        forall|i: int| 0 <= i < patches.len() ==> patch_ids().contains(#[trigger] patches[i]),
        forall|id: PatchId| #[trigger] patch_ids().contains(id) ==> target_files(v, paths, id).len() > 0,
    ensures
        all_targets(v, paths, patches, n) is Ok,
    decreases n,
{
    if n > 0 {
        law_listed_patches_can_be_collected(v, paths, patches, (n - 1) as nat);
        assert(patch_ids().contains(patches[n - 1]));
    }
}

} // verus!
