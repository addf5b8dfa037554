//! What the patches make of whole files, and which files they are for.

use crate::blocks::{client_stripped, emptied};
use crate::index::normalized;
use crate::patches::PatchId;
use crate::script_laws::{
    emptied_parts, is_named, is_script, law_client_keeps_the_listed_blocks,
    law_file_without_client_stays, law_named_blocks_are_emptied, parts_text, with_client_kept, Part,
};
use crate::splices::{are_places, law_every_place_is_replaced, spliced};
use crate::targets::{startup_scene, targets};
use crate::text::{contains_text, ends_with, replaced, starts_with};
use crate::transforms::{
    blending_pairs, kept_effect_blocks, law_utf16_file_reads_back, lemma_without_marks,
    minimap_text, pairs_replaced, protected_effects, protected_particles, sound_blocks, transformed,
    under_one_of, utf16_file_text, without_marks, TransformError,
};
use crate::utf16::{byte_units, utf16_text};
use vstd::prelude::*;

verus! {

/// Paths are compared character by character, in lower case and with slashes.
pub proof fn law_paths_are_compared_in_lower_case(path: Seq<char>)
    ensures
        normalized(path).len() == path.len(),
        forall|i: int|
            0 <= i < path.len() ==> (#[trigger] normalized(path)[i]) as u32 == if path[i] == '\\' {
                '/' as u32
            } else if 'A' <= path[i] <= 'Z' {
                (path[i] as u32 + 32) as u32
            } else {
                path[i] as u32
            },
{
    assert forall|i: int| 0 <= i < path.len() implies (#[trigger] normalized(path)[i]) as u32
        == if path[i] == '\\' {
        '/' as u32
    } else if 'A' <= path[i] <= 'Z' {
        (path[i] as u32 + 32) as u32
    } else {
        path[i] as u32
    } by {
        lemma_lower(path[i]);
    }
}

proof fn lemma_lower(c: char)
    ensures
        crate::text::lower(c) as u32 == if 'A' <= c <= 'Z' {
            (c as u32 + 32) as u32
        } else {
            c as u32
        },
{
}

/// Whether the path begins with one of the texts, in lower case and with slashes.
pub open spec fn begins_with_one_of(path: Seq<char>, prefixes: Seq<Seq<char>>) -> bool {
    exists|i: int| 0 <= i < prefixes.len() && starts_with(normalized(path), #[trigger] prefixes[i])
}

/// Whether the path is one of character selection.
pub open spec fn is_of_selection(path: Seq<char>) -> bool {
    contains_text(normalized(path), "characterselection"@) || contains_text(
        normalized(path),
        "char_selection"@,
    )
}

/// The effects that no patch of effects or sounds may change.
pub open spec fn untouched_effects() -> Seq<Seq<char>> {
    seq![
        "metadata/effects/spells/monsters_effects/league_expedition/dynamic_marker"@,
        "metadata/effects/spells/monsters_effects/atlasofworldsbosses"@,
        "metadata/effects/spells/monsters_effects/league_azmeri/guiding_light"@,
        "metadata/effects/spells/monsters_effects/league_azmeri/monster_fx"@,
        "metadata/effects/spells/monsters_effects/league_azmeri/resources/affecting_area"@,
        "metadata/effects/spells/monsters_effects/league_azmeri/resources/feature_room_dust"@,
        "metadata/effects/spells/monsters_effects/league_azmeri/resources/guiding_light"@,
        "metadata/effects/spells/monsters_effects/league_azmeri/resources/wisp_doodads"@,
        "metadata/effects/spells/monsters_effects/league_legion/rewardsystem"@,
        "metadata/effects/spells/monsters_effects/league_blight/rewardsystem"@,
        "metadata/effects/spells/monsters_effects/league_archnemesis"@,
        "metadata/effects/spells/monsters_effects/league_ritual/cold_ritual"@,
        "metadata/effects/spells/monsters_effects/league_ultimatum/mechanics/fx/arena_limit.pet"@,
        "metadata/effects/spells/monsters_effects/league_sanctum"@,
        "metadata/effects/spells/monsters_effects/league_hellscape/mechanics"@,
        "metadata/effects/spells/monsters_effects/atlasofworldsbosses/maven"@,
        "metadata/effects/spells/monsters_effects/atlasexiles/adjudicator"@,
        "metadata/effects/spells/ground_effects/chimera_smoke"@,
        "metadata/effects/spells/ground_effects/evil"@,
        "metadata/effects/spells/ground_effects_v2/smoke_blind_chimera"@,
        "metadata/effects/spells/monsters_effects/atlasofworldsbosses/chimera"@,
        "metadata/effects/spells/monsters_effects/atlasexiles/orion"@,
        "metadata/effects/spells/monsters_effects/prophecy_league"@,
        "metadata/effects/spells/ground_effects/caustic"@,
        "metadata/effects/spells/ground_effects_v2/caustic_arrow_ground"@,
        "metadata/effects/spells/ground_effects_v2/desecrated"@,
        "metadata/effects/spells/ground_effects_v2/desecrated_maligaro"@,
        "metadata/effects/spells/ground_effects_v2/desecrated_red"@,
        "metadata/effects/spells/ground_effects_v3/caustic"@,
    ]
}

/// The particles that the patch of particles may not change.
pub open spec fn untouched_particles() -> Seq<Seq<char>> {
    seq![
        "metadata/particles/monster_effects/league_legion/rewardsystem"@,
        "metadata/particles/monster_effects/league_legion/endgame"@,
        "metadata/particles/monster_effects/league_delve/general"@,
        "metadata/particles/monster_effects/atlasexiles/adjudicator"@,
        "metadata/particles/monster_effects/atlasexiles/adjudicatormonsters"@,
        "metadata/particles/enviro_effects/act3/blood_temple"@,
        "metadata/particles/ground_effects_v2/smoke_blind_chimera"@,
        "metadata/particles/monster_effects/atlasofworldsbosses/chimera"@,
        "metadata/particles/monster_effects/atlasexiles/orion"@,
    ]
}

proof fn lemma_untouched(path: Seq<char>)
    ensures
        under_one_of(path, protected_effects()) == begins_with_one_of(path, untouched_effects()),
        under_one_of(path, protected_particles()) == begins_with_one_of(
            path,
            untouched_particles(),
        ),
        startup_scene(path) == is_of_selection(path),
{
    let a = protected_effects();
    let b = untouched_effects();
    assert(a =~= b);
    if under_one_of(path, a) {
        let i = choose|i: int|
            0 <= i < a.len() && crate::targets::under(path, #[trigger] a[i]);
        assert(starts_with(normalized(path), b[i]));
    }
    if begins_with_one_of(path, b) {
        let i = choose|i: int| 0 <= i < b.len() && starts_with(normalized(path), #[trigger] b[i]);
        assert(crate::targets::under(path, a[i]));
    }
    let c = protected_particles();
    let d = untouched_particles();
    assert(c =~= d);
    if under_one_of(path, c) {
        let i = choose|i: int|
            0 <= i < c.len() && crate::targets::under(path, #[trigger] c[i]);
        assert(starts_with(normalized(path), d[i]));
    }
    if begins_with_one_of(path, d) {
        let i = choose|i: int| 0 <= i < d.len() && starts_with(normalized(path), #[trigger] d[i]);
        assert(crate::targets::under(path, c[i]));
    }
}

/// Effects that may not change, and all of character selection, come out of the patches
/// of effects and sounds as they were.
pub proof fn law_untouched_effects_stay(
    patch: PatchId,
    path: Seq<char>,
    bytes: Seq<u8>,
    zoom: Seq<char>,
)
    requires
        begins_with_one_of(path, untouched_effects()) || is_of_selection(path),
        patch == PatchId::Effects || patch == PatchId::DisableSounds || patch
            == PatchId::SkillSounds || patch == PatchId::MonsterSounds,
    ensures
        transformed(patch, path, bytes, zoom) == Ok::<Seq<u8>, TransformError>(bytes),
{
    lemma_untouched(path);
}

/// A particle file holds a zero only after the patch of particles, unless it may not
/// change.
pub proof fn law_particles_are_blanked(path: Seq<char>, bytes: Seq<u8>, zoom: Seq<char>)
    ensures
        ({
            let out = transformed(PatchId::Particles, path, bytes, zoom);
            &&& out is Ok
            &&& if begins_with_one_of(path, untouched_particles()) {
                out->Ok_0 == bytes
            } else {
                utf16_file_text(out->Ok_0) == Ok::<Seq<char>, TransformError>("0"@)
            }
        }),
{
    lemma_untouched(path);
    reveal_strlit("0");
    law_utf16_file_reads_back("0"@);
    assert(without_marks("0"@) == "0"@);
}

/// Of microtransactions, effect packs are emptied, particles and trails hold a zero
/// only, and other files, and those of character selection, stay.
pub proof fn law_microtransactions_are_blanked(path: Seq<char>, bytes: Seq<u8>, zoom: Seq<char>)
    ensures
        ({
            let out = transformed(PatchId::MtxSoft, path, bytes, zoom);
            let p = normalized(path);
            &&& out is Ok
            &&& if is_of_selection(path) {
                out->Ok_0 == bytes
            } else if ends_with(p, ".epk"@) {
                utf16_file_text(out->Ok_0) == Ok::<Seq<char>, TransformError>(Seq::empty())
            } else if ends_with(p, ".pet"@) || ends_with(p, ".trl"@) {
                utf16_file_text(out->Ok_0) == Ok::<Seq<char>, TransformError>("0"@)
            } else {
                out->Ok_0 == bytes
            }
        }),
{
    lemma_untouched(path);
    reveal_strlit("0");
    reveal_strlit("");
    law_utf16_file_reads_back("0"@);
    law_utf16_file_reads_back(""@);
    assert(without_marks("0"@) == "0"@);
    assert(""@ =~= Seq::<char>::empty());
    assert(without_marks(""@) == ""@);
}

/// The five kinds of blocks that an effect needs.
pub open spec fn needed_blocks() -> Seq<Seq<char>> {
    seq![
        "ClientAnimationController"@,
        "SoundEvents"@,
        "BoneGroups"@,
        "AnimatedRender"@,
        "SkinMesh"@,
    ]
}

/// The patch of effects leaves in an effect's `client` block the blocks that it needs,
/// as they are and in their order, and all that stands between the blocks. All outside
/// of the `client` block stays.
pub proof fn law_effects_keep_what_they_need(
    parts: Seq<Part>,
    c: int,
    path: Seq<char>,
    bytes: Seq<u8>,
    zoom: Seq<char>,
)
    requires
        !begins_with_one_of(path, untouched_effects()),
        !is_of_selection(path),
        utf16_file_text(bytes) == Ok::<Seq<char>, TransformError>(parts_text(parts)),
        is_script(parts),
        0 <= c < parts.len(),
        is_named(parts[c], "client"@),
        forall|j: int| 0 <= j < c ==> !is_named(#[trigger] parts[j], "client"@),
    ensures
        ({
            let out = transformed(PatchId::Effects, path, bytes, zoom);
            &&& out is Ok
            &&& utf16_file_text(out->Ok_0) == Ok::<Seq<char>, TransformError>(
                parts_text(with_client_kept(parts, c, needed_blocks())),
            )
        }),
{
    lemma_untouched(path);
    let t = parts_text(parts);
    let u = parts_text(with_client_kept(parts, c, needed_blocks()));
    assert(kept_effect_blocks() =~= needed_blocks());
    law_client_keeps_the_listed_blocks(parts, c, needed_blocks());
    assert(client_stripped(t, kept_effect_blocks()) == u);
    lemma_without_marks(utf16_text(byte_units(bytes))->0);
    assert(without_marks(u) == u) by {
        if u.len() > 0 {
            lemma_first_not_mark(parts, c, needed_blocks());
        }
    }
    law_utf16_file_reads_back(u);
}

proof fn lemma_first_not_mark(parts: Seq<Part>, c: int, keep: Seq<Seq<char>>)
    requires
        is_script(parts),
        0 <= c < parts.len(),
        is_named(parts[c], "client"@),
        forall|j: int| 0 <= j < c ==> !is_named(#[trigger] parts[j], "client"@),
    ensures
        parts_text(parts).len() > 0,
        parts_text(with_client_kept(parts, c, keep))[0] == parts_text(parts)[0],
{
    law_client_keeps_the_listed_blocks(parts, c, keep);
    crate::script_laws::lemma_not_empty(parts);
}

/// An effect without a `client` block comes out of the patch of effects with the same
/// text.
pub proof fn law_effects_without_client_stay(
    parts: Seq<Part>,
    path: Seq<char>,
    bytes: Seq<u8>,
    zoom: Seq<char>,
)
    requires
        utf16_file_text(bytes) == Ok::<Seq<char>, TransformError>(parts_text(parts)),
        is_script(parts),
        forall|j: int| 0 <= j < parts.len() ==> !is_named(#[trigger] parts[j], "client"@),
    ensures
        ({
            let out = transformed(PatchId::Effects, path, bytes, zoom);
            &&& out is Ok
            &&& utf16_file_text(out->Ok_0) == utf16_file_text(bytes)
        }),
{
    let t = parts_text(parts);
    law_file_without_client_stays(parts, kept_effect_blocks());
    lemma_without_marks(utf16_text(byte_units(bytes))->0);
    assert(without_marks(t) == t);
    law_utf16_file_reads_back(t);
}

/// The patches of sounds empty the blocks of sound events and of sound parameters,
/// however deep they stand, and leave every other part as it is.
pub proof fn law_sounds_are_emptied(
    patch: PatchId,
    parts: Seq<Part>,
    path: Seq<char>,
    bytes: Seq<u8>,
    zoom: Seq<char>,
)
    requires
        patch == PatchId::DisableSounds || patch == PatchId::SkillSounds || patch
            == PatchId::MonsterSounds,
        !begins_with_one_of(path, untouched_effects()),
        !is_of_selection(path),
        utf16_file_text(bytes) == Ok::<Seq<char>, TransformError>(parts_text(parts)),
        is_script(parts),
    ensures
        ({
            let out = transformed(patch, path, bytes, zoom);
            let names = seq!["SoundEvents"@, "SoundParams"@];
            &&& out is Ok
            &&& utf16_file_text(out->Ok_0) == Ok::<Seq<char>, TransformError>(
                parts_text(emptied_parts(parts, names)),
            )
        }),
{
    lemma_untouched(path);
    let t = parts_text(parts);
    let names = seq!["SoundEvents"@, "SoundParams"@];
    let u = parts_text(emptied_parts(parts, names));
    assert(sound_blocks() =~= names);
    law_named_blocks_are_emptied(parts, names);
    assert(emptied(t, sound_blocks(), 0) == u);
    lemma_without_marks(utf16_text(byte_units(bytes))->0);
    assert(without_marks(u) == u) by {
        crate::script_laws::lemma_emptied_first(parts, names);
    }
    law_utf16_file_reads_back(u);
}

/// An effect of delirium is cut down to the least that an object of its kind holds. One
/// of another kind keeps its text.
pub proof fn law_delirium_effects_are_cut_down(path: Seq<char>, bytes: Seq<u8>, zoom: Seq<char>)
    requires
        utf16_file_text(bytes) is Ok,
    ensures
        ({
            let t = utf16_file_text(bytes)->Ok_0;
            let out = transformed(PatchId::Delirium, path, bytes, zoom);
            let u = utf16_file_text(out->Ok_0);
            let fmt = contains_text(t, "Metadata/FmtParent"@);
            let animated = contains_text(t, "AnimatedRender"@);
            let other = contains_text(t, "Metadata/Parent"@);
            &&& out is Ok
            &&& u is Ok
            &&& fmt && !animated ==> u->Ok_0 == "version 3\nextends \"Metadata/FmtParent\""@
            &&& fmt && animated ==> u->Ok_0
                == "version 3\nextends \"Metadata/FmtParent\"\n\nclient\n{\n\tAnimatedRender\n\t{\n\t\tcannot_be_disabled = true\n\t}\n}"@
            &&& !fmt && other ==> u->Ok_0
                == "version 3\nextends \"Metadata/Parent\"\n\nBaseAnimationEvents\n{\n}\n\nAnimationController\n{\n\tmetadata = \"Art/Models/Effects/enviro_effects/weather_attachments/generic_rig/weather_rig.amd\"\n}\n\nclient\n{\n    ClientAnimationController\n    {\n        skeleton = \"Art/Models/Effects/enviro_effects/weather_attachments/generic_rig/weather_rig.ast\"\n    }\n\n    BoneGroups\n    {\n        bone_group = \"box false aux_box1 aux_box2 aux_box3 \"\n    }\n}"@
            &&& !fmt && !other ==> u->Ok_0 == t
        }),
{
    let t = utf16_file_text(bytes)->Ok_0;
    let u = crate::transforms::delirium_text(t);
    lemma_without_marks(utf16_text(byte_units(bytes))->0);
    assert(without_marks(u) == u) by {
        reveal_strlit("version 3\nextends \"Metadata/FmtParent\"");
        reveal_strlit(
            "version 3\nextends \"Metadata/FmtParent\"\n\nclient\n{\n\tAnimatedRender\n\t{\n\t\tcannot_be_disabled = true\n\t}\n}",
        );
        reveal_strlit(
            "version 3\nextends \"Metadata/Parent\"\n\nBaseAnimationEvents\n{\n}\n\nAnimationController\n{\n\tmetadata = \"Art/Models/Effects/enviro_effects/weather_attachments/generic_rig/weather_rig.amd\"\n}\n\nclient\n{\n    ClientAnimationController\n    {\n        skeleton = \"Art/Models/Effects/enviro_effects/weather_attachments/generic_rig/weather_rig.ast\"\n    }\n\n    BoneGroups\n    {\n        bone_group = \"box false aux_box1 aux_box2 aux_box3 \"\n    }\n}",
        );
    }
    law_utf16_file_reads_back(u);
}

/// In the shader of the minimap's blending the color of walkable ground is replaced
/// everywhere, and then that of its edges.
pub proof fn law_blending_gets_other_colors(path: Seq<char>, t: Seq<char>) -> (steps: (
    Seq<(int, int)>,
    Seq<char>,
    Seq<(int, int)>,
))
    requires
        ends_with(path, "minimap_blending_pixel.hlsl"@),
        !ends_with(path, "minimap_visibility_pixel.hlsl"@),
    ensures
        ({
            let ground = "float4 walkable_color = float4(1.0f, 1.0f, 1.0f, 0.01f);"@;
            let edges =
                "float4 walkability_map_color = lerp(walkable_color, float4(0.5f, 0.5f, 1.0f, 0.5f), walkable_to_edge_ratio);"@;
            &&& are_places(t, ground, steps.0, 0)
            &&& steps.1 == spliced(
                t,
                steps.0,
                "float4 walkable_color = float4(0.0f, 0.0f, 0.0f, 0.3f);"@,
                0,
            )
            &&& are_places(steps.1, edges, steps.2, 0)
            &&& minimap_text(path, t) == spliced(
                steps.1,
                steps.2,
                "float4 walkability_map_color = lerp(walkable_color, float4(12.0f, 12.0f, 12.0f, 0.1f), walkable_to_edge_ratio);"@,
                0,
            )
        }),
{
    let ground = "float4 walkable_color = float4(1.0f, 1.0f, 1.0f, 0.01f);"@;
    let dark = "float4 walkable_color = float4(0.0f, 0.0f, 0.0f, 0.3f);"@;
    let edges =
        "float4 walkability_map_color = lerp(walkable_color, float4(0.5f, 0.5f, 1.0f, 0.5f), walkable_to_edge_ratio);"@;
    let bright =
        "float4 walkability_map_color = lerp(walkable_color, float4(12.0f, 12.0f, 12.0f, 0.1f), walkable_to_edge_ratio);"@;
    reveal_strlit("float4 walkable_color = float4(1.0f, 1.0f, 1.0f, 0.01f);");
    reveal_strlit(
        "float4 walkability_map_color = lerp(walkable_color, float4(0.5f, 0.5f, 1.0f, 0.5f), walkable_to_edge_ratio);",
    );
    let u = replaced(t, ground, dark);
    let first = law_every_place_is_replaced(t, ground, dark);
    let second = law_every_place_is_replaced(u, edges, bright);
    assert(pairs_replaced(t, blending_pairs(), 0) == t);
    assert(pairs_replaced(t, blending_pairs(), 1) == u);
    assert(pairs_replaced(t, blending_pairs(), 2) == replaced(u, edges, bright));
    (first, u, second)
}

/// Other shaders stay as they are.
pub proof fn law_other_shaders_stay(path: Seq<char>, t: Seq<char>)
    requires
        !ends_with(path, "minimap_blending_pixel.hlsl"@),
        !ends_with(path, "minimap_visibility_pixel.hlsl"@),
    ensures
        minimap_text(path, t) == t,
{
}

/// Which files a patch is for, by what their paths begin and end with.
pub proof fn law_patches_are_for_their_files(patch: PatchId, path: Seq<char>)
    ensures
        ({
            let p = normalized(path);
            let object = ends_with(p, ".ao"@) || ends_with(p, ".aoc"@);
            let script = ends_with(p, ".ot"@) || ends_with(p, ".otc"@);
            let particle = ends_with(p, ".pet"@) || ends_with(p, ".trl"@);
            let spell = starts_with(p, "metadata/effects/spells"@);
            let monster_spell = starts_with(p, "metadata/effects/spells/monsters_effects"@);
            let monster = starts_with(p, "metadata/monsters"@);
            targets(patch, path) == match patch {
                PatchId::Camera => starts_with(p, "metadata/"@) && script,
                PatchId::Minimap => p == "shaders/minimap_visibility_pixel.hlsl"@ || p
                    == "shaders/minimap_blending_pixel.hlsl"@,
                PatchId::AtlasFog => p
                    == "metadata/materials/environment/worldmap/worldmap_fogofwar.fxgraph"@,
                PatchId::Fog
                | PatchId::Rain
                | PatchId::Clouds
                | PatchId::EnvParticles
                | PatchId::Shadow
                | PatchId::Light => starts_with(p, "metadata/environmentsettings"@) && ends_with(
                    p,
                    ".env"@,
                ),
                PatchId::Delirium => starts_with(
                    p,
                    "metadata/effects/environment/league_affliction"@,
                ) && object,
                PatchId::Particles => starts_with(p, "metadata/particles"@) && particle,
                PatchId::Effects => spell && object,
                PatchId::DisableSounds => !is_of_selection(path) && (starts_with(
                    p,
                    "metadata/effects"@,
                ) || starts_with(p, "metadata/characters"@) || monster || starts_with(
                    p,
                    "metadata/terrain"@,
                ) || starts_with(p, "metadata/environment"@)) && !starts_with(
                    p,
                    "metadata/environmentsettings"@,
                ) && (object || script),
                PatchId::SkillSounds => spell && !monster_spell && (object || script),
                PatchId::MonsterSounds => (monster_spell || monster) && (object || script),
                PatchId::MtxSoft => starts_with(p, "metadata/effects/microtransactions"@) && (object
                    || particle || ends_with(p, ".epk"@)),
                PatchId::BlackScreen | PatchId::ColorMods | PatchId::MonsterHpBar => false,
            }
        }),
{
    lemma_untouched(path);
}

} // verus!
