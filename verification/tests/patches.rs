use std::collections::HashMap;
use tiny_poe2smoother::blocks::{empty_named_blocks, strip_client_blocks};
use tiny_poe2smoother::edits::{remove_function_calls, replace_array_property};
use tiny_poe2smoother::hashing::{fnv1a_bundle_hash, HashMode};
use tiny_poe2smoother::index::{BundleFile, BundleIndex, BundleInfo, IndexedPath};
use tiny_poe2smoother::patch_set::{
    build_patch_set_from_transformed, candidate_bundles, compute_patch_set, dedup_candidates,
    transform_file, BundleContent, OrderMismatch, PatchSetError, TransformedFile,
};
use tiny_poe2smoother::patches::{
    all_patches, all_presets, every_named_patch, every_patch, parse_patch, parse_preset,
    patch_info, unique_patches, PatchId,
};
use tiny_poe2smoother::targets::{
    collect_patch_targets, ends_with_path_ci, eq_path_ci, is_startup_scene_protected,
    no_files_message, patch_applies_path, starts_with_path_ci,
    patch_targets_path, TargetError,
};
use tiny_poe2smoother::text::{chars_of, string_of};
use tiny_poe2smoother::transforms::{
    audit_transform, camera, decode_utf16, effects, encode_utf16_bom, minimap, particles,
    transform, TransformError,
};

fn utf16(text: &str) -> Vec<u8> {
    encode_utf16_bom(&chars_of(text))
}

fn text_of(bytes: &[u8]) -> String {
    string_of(&decode_utf16(bytes).unwrap())
}

fn file(bundle_name: &str, size: u32) -> BundleFile {
    BundleFile {
        hash: 0,
        bundle_index: 0,
        bundle_name: bundle_name.to_string(),
        offset: 0,
        size,
        record_pos: 0,
    }
}

fn index_of(paths: &[(&str, &str, u32)]) -> BundleIndex {
    let mut bundles: Vec<BundleInfo> = Vec::new();
    let mut files = HashMap::new();
    let mut file_order = Vec::new();
    for (path, bundle_name, size) in paths {
        let bundle_index = match bundles.iter().position(|b| b.name == *bundle_name) {
            Some(i) => i,
            None => {
                bundles.push(BundleInfo {
                    name: bundle_name.to_string(),
                    uncompressed_size: 0,
                    size_pos: 0,
                });
                bundles.len() - 1
            }
        };
        let hash = fnv1a_bundle_hash(path);
        file_order.push(hash);
        files.insert(
            hash,
            BundleFile {
                hash,
                bundle_index: bundle_index as u32,
                bundle_name: bundle_name.to_string(),
                offset: 0,
                size: *size,
                record_pos: 0,
            },
        );
    }
    BundleIndex {
        raw_decompressed: vec![0; 4],
        bundles,
        hash_mode: HashMode::Fnv1A,
        files,
        file_order,
        file_count_pos: 4,
        directory_bytes_compressed: Vec::new(),
        directories: Vec::new(),
        paths: Some(paths.iter().map(|(path, _, _)| path.to_string()).collect()),
    }
}

fn paths_of(files: &[IndexedPath]) -> Vec<String> {
    files.iter().map(|f| f.path.clone()).collect()
}

fn collect(index: &mut BundleIndex, patches: &[PatchId]) -> Result<Vec<IndexedPath>, TargetError> {
    collect_patch_targets(index, patches, &Vec::new())
}

#[test]
fn camera_removes_function_calls() {
    let input = utf16("foo = 1;\ncontroller.CreateCameraPanNode(1, (2));\nbar = 2;");
    let out = text_of(&camera("metadata/x.ot", &input, "2.4").unwrap());
    assert!(!out.contains("CreateCameraPanNode"));
    assert!(out.contains("bar = 2"));
    assert_eq!(out, "foo = 1;\n\nbar = 2;");
}

#[test]
fn camera_leaves_scripts_without_calls_alone() {
    let mut input = utf16("foo = 1;");
    assert_eq!(camera("metadata/x.ot", &input, "2.4").unwrap(), input);
    // A second mark would be lost if the file were written anew.
    input.splice(2..2, [0xff, 0xfe]);
    assert_eq!(camera("metadata/x.ot", &input, "2.4").unwrap(), input);
}

#[test]
fn camera_sets_the_zoom_of_the_character() {
    let path = "Metadata/Characters/Character.ot";
    let line = "\ton_initial_position_set = {CreateCameraZoomNode(5000.0, 5000.0, 1.8);} ";
    let input = utf16("a\r\n\tteam = 1\r\nb");
    let once = camera(path, &input, "1.8").unwrap();
    assert_eq!(text_of(&once), format!("a\r\n\tteam = 1\r\n{line}\r\nb"));
    // A line that sets it is replaced.
    let twice = camera(path, &once, "2.4").unwrap();
    assert_eq!(
        text_of(&twice),
        format!("a\r\n\tteam = 1\r\n{}\r\nb", line.replace("1.8", "2.4"))
    );
    let neither = utf16("a\r\nb");
    assert_eq!(text_of(&camera(path, &neither, "2.4").unwrap()), "a\r\nb");
}

#[test]
fn function_calls_without_a_semicolon_stay() {
    let calls = |text: &str| {
        string_of(&remove_function_calls(
            &chars_of(text),
            &chars_of("FaceCamera"),
        ))
    };
    assert_eq!(calls("x = FaceCamera(1)"), "x = FaceCamera(1)");
    assert_eq!(calls("FaceCamera (1) ;y"), "y");
    assert_eq!(calls("a.b_c.FaceCamera(1);"), "");
    assert_eq!(calls("FaceCamera(1; FaceCamera(2);"), "FaceCamera(1; ");
    assert_eq!(calls("FaceCameraX(1);"), "FaceCameraX(1);");
}

#[test]
fn effects_keeps_selected_client_blocks() {
    let input = "version 3\nclient\n{\n  AnimatedRender\n  {\n  }\n  ParticleEffects\n  {\n  }\n}";
    let out = string_of(&strip_client_blocks(&chars_of(input), &["AnimatedRender"]));
    assert!(out.contains("AnimatedRender"));
    assert!(!out.contains("ParticleEffects"));
    assert_eq!(
        out,
        "version 3\nclient\n{\n  AnimatedRender\n  {\n  }\n  \n}"
    );
}

#[test]
fn client_blocks_are_found_behind_strings_comments_and_arrays() {
    let strip = |text: &str| string_of(&strip_client_blocks(&chars_of(text), &["Keep"]));
    assert_eq!(strip("no block"), "no block");
    assert_eq!(strip("client { A { }"), "client { A { }");
    assert_eq!(
        strip("// client { x }\nclient { Keep { \"}\" } A { [ } ] } }"),
        "// client { x }\nclient { Keep { \"}\" }  }"
    );
    assert_eq!(
        strip("server { client { A {} } } client { A {} }"),
        "server { client { A {} } } client {  }"
    );
    assert_eq!(strip("client { /* A { */ A {} }"), "client { /* A { */  }");
}

#[test]
fn changed_replacements_are_built_once_per_target_path() {
    let candidates = vec![IndexedPath {
        path: "metadata/environmentsettings/test.env".to_string(),
        file: file("env.bundle.bin", 6),
    }];
    let after = vec![TransformedFile {
        path: "metadata/environmentsettings/test.env".to_string(),
        bytes: b"changed".to_vec(),
        changed: true,
    }];

    let patch_set = build_patch_set_from_transformed(&candidates, &after).unwrap();

    assert_eq!(patch_set.changes.len(), 1);
    assert_eq!(
        patch_set.edits_of("env.bundle.bin").map(|edits| edits.len()),
        Some(1)
    );
    assert_eq!(patch_set.changes[0].old_size, 6);
    assert_eq!(patch_set.changes[0].new_size, 7);
    let edits = patch_set.into_edits();
    assert_eq!(edits.len(), 1);
    assert_eq!(edits[0].1, b"changed");
}

#[test]
fn patch_sets_hold_changed_files_bundle_by_bundle() {
    let mut candidates = Vec::new();
    let mut after = Vec::new();
    for (path, bundle, changed) in [
        ("a", "one", true),
        ("b", "two", true),
        ("c", "one", false),
        ("d", "one", true),
    ] {
        candidates.push(IndexedPath {
            path: path.to_string(),
            file: file(bundle, 1),
        });
        after.push(TransformedFile {
            path: path.to_string(),
            bytes: path.as_bytes().to_vec(),
            changed,
        });
    }
    let set = build_patch_set_from_transformed(&candidates, &after).unwrap();
    let paths: Vec<&str> = set.changes.iter().map(|c| c.path.as_str()).collect();
    assert_eq!(paths, ["a", "b", "d"]);
    assert_eq!(set.edits_of("one").unwrap().len(), 2);
    assert_eq!(set.edits_of("two").unwrap().len(), 1);
    assert!(set.edits_of("three").is_none());
    let bytes: Vec<Vec<u8>> = set.into_edits().into_iter().map(|e| e.1).collect();
    assert_eq!(bytes, [b"a".to_vec(), b"d".to_vec(), b"b".to_vec()]);

    after[1].path = "x".to_string();
    assert!(matches!(
        build_patch_set_from_transformed(&candidates, &after),
        Err(OrderMismatch)
    ));
}

#[test]
fn duplicate_patch_candidates_collapse_to_one_target() {
    let one = || IndexedPath {
        path: "metadata/environmentsettings/test.env".to_string(),
        file: file("env.bundle.bin", 6),
    };
    let candidates = dedup_candidates(vec![one(), one()]);

    assert_eq!(candidates.len(), 1);
    assert_eq!(candidates[0].path, "metadata/environmentsettings/test.env");
}

#[test]
fn candidates_come_in_the_order_of_their_paths_and_the_last_one_counts() {
    let one = |path: &str, size: u32| IndexedPath {
        path: path.to_string(),
        file: file(&format!("bundle{}", size % 2), size),
    };
    let candidates = dedup_candidates(vec![
        one("b", 1),
        one("aé", 2),
        one("a", 3),
        one("b", 4),
        one("az", 5),
        one("", 6),
    ]);
    assert_eq!(paths_of(&candidates), ["", "a", "az", "aé", "b"]);
    assert_eq!(candidates[4].file.size, 4);
    assert_eq!(candidate_bundles(&candidates), ["bundle0", "bundle1"]);
}

#[test]
fn duplicate_selected_patches_do_not_create_missing_target_errors() {
    let mut index = index_of(&[("metadata/environmentsettings/test.env", "env", 12)]);

    let candidates = collect(&mut index, &[PatchId::Fog, PatchId::Fog]).unwrap();
    let candidates = dedup_candidates(candidates);

    assert_eq!(candidates.len(), 1);
    assert_eq!(candidates[0].path, "metadata/environmentsettings/test.env");
}

#[test]
fn broad_environment_patches_share_one_target_scan_result() {
    let mut index = index_of(&[
        ("metadata/environmentsettings/test.env", "env", 12),
        ("metadata/environmentsettings/ignored.txt", "env", 12),
    ]);

    let candidates = collect(
        &mut index,
        &[
            PatchId::Fog,
            PatchId::Rain,
            PatchId::Clouds,
            PatchId::EnvParticles,
            PatchId::Shadow,
            PatchId::Light,
        ],
    )
    .unwrap();
    let candidates = dedup_candidates(candidates);

    assert_eq!(candidates.len(), 1);
    assert_eq!(candidates[0].path, "metadata/environmentsettings/test.env");
}

#[test]
fn direct_patch_targets_must_match_exact_paths() {
    let mut index = index_of(&[
        ("shaders/minimap_visibility_pixel.hlsl", "shader", 12),
        ("x/shaders/minimap_blending_pixel.hlsl", "shader", 12),
        (
            "metadata/materials/environment/worldmap/worldmap_fogofwar.fxgraph",
            "atlas",
            12,
        ),
    ]);

    let candidates = collect(&mut index, &[PatchId::Minimap, PatchId::AtlasFog]).unwrap();

    assert_eq!(
        paths_of(&candidates),
        [
            "shaders/minimap_visibility_pixel.hlsl",
            "metadata/materials/environment/worldmap/worldmap_fogofwar.fxgraph",
        ]
    );
}

#[test]
fn missing_selected_patch_target_still_errors() {
    let mut index = index_of(&[("metadata/environmentsettings/test.env", "env", 12)]);

    let err = collect(&mut index, &[PatchId::Minimap]).unwrap_err();

    assert_eq!(err, TargetError::NoFiles(PatchId::Minimap));
    assert!(no_files_message(PatchId::Minimap).contains("patch 'minimap' has no matching files"));
}

#[test]
fn patches_without_known_files_say_so() {
    let mut index = index_of(&[("metadata/environmentsettings/test.env", "env", 12)]);
    for patch in [PatchId::BlackScreen, PatchId::ColorMods, PatchId::MonsterHpBar] {
        let err = collect(&mut index, &[PatchId::Fog, patch]).unwrap_err();
        assert_eq!(err, TargetError::NoFiles(patch));
        assert_eq!(transform(patch, "a.env", b"abc", "2.4").unwrap(), b"abc");
    }
    assert!(no_files_message(PatchId::BlackScreen).contains("patch 'black-screen' has no"));
}

#[test]
fn targets_need_the_paths_of_the_index() {
    let mut index = index_of(&[("shaders/minimap_visibility_pixel.hlsl", "shader", 12)]);
    index.paths = None;
    assert!(matches!(
        collect(&mut index, &[PatchId::Minimap, PatchId::Fog]),
        Err(TargetError::Index(_))
    ));
    // Single files are found without them.
    assert_eq!(collect(&mut index, &[PatchId::Minimap]).unwrap().len(), 1);
}

#[test]
fn multiple_transforms_apply_in_selected_order_for_one_target() {
    let input = utf16("\"fog\"\n\"rain_intensity\": 1.0,\n\"clouds_intensity\": 1.0,\n");
    let mut bytes = input;
    for patch in [PatchId::Fog, PatchId::Rain, PatchId::Clouds] {
        bytes = transform(patch, "metadata/environmentsettings/test.env", &bytes, "2.4").unwrap();
    }
    let text = text_of(&bytes);

    assert!(text.contains("\"xog\""));
    assert!(text.contains("\"rain_intensity\": 0.0,"));
    assert!(text.contains("\"clouds_intensity\": 0.0,"));
}

#[test]
fn files_are_patched_in_order_and_changes_are_noticed() {
    let path = "metadata/environmentsettings/test.env";
    let input = utf16("\"shadows_enabled\": true, \"player_light\": 1, \"area\": 2");
    let (out, changed) = transform_file(
        &[PatchId::Camera, PatchId::Shadow, PatchId::Light],
        path,
        input.clone(),
        "2.4",
    )
    .unwrap();
    assert!(changed);
    assert_eq!(
        text_of(&out),
        "\"shadows_enabled\": false, \"xlayer_light\": 1, \"area\": 2"
    );
    let (out, changed) = transform_file(&[PatchId::Fog], path, input.clone(), "2.4").unwrap();
    assert!(!changed);
    assert_eq!(out, input);
    let err = transform_file(&[PatchId::Fog], path, vec![1], "2.4").unwrap_err();
    assert_eq!(err, TransformError::OddLength);
    let err = transform_file(&[PatchId::Fog], path, vec![0, 0xd8], "2.4").unwrap_err();
    assert_eq!(err, TransformError::InvalidUtf16);
}

#[test]
fn environment_particles_lose_their_names_and_intensities() {
    let input = utf16("\"area\" \"effect_spawner\" \"rain_intensity\": 3,\"clouds_intensity\":7}");
    let out = transform(
        PatchId::EnvParticles,
        "metadata/environmentsettings/test.env",
        &input,
        "2.4",
    )
    .unwrap();
    assert_eq!(
        text_of(&out),
        "\"xrea\" \"xffect_spawner\" \"rain_intensity\": 0.0,\"clouds_intensity\":0.0}"
    );
}

#[test]
fn protected_particle_and_effect_paths_are_unchanged() {
    let particle_input = utf16("keep particle");
    let particle = particles(
        "metadata/particles/monster_effects/league_legion/rewardsystem/foo.pet",
        &particle_input,
    );
    assert_eq!(particle, particle_input);

    let effect_input = utf16("client\n{\n  ParticleEffects\n  {\n  }\n}");
    let effect = effects(
        "metadata/effects/spells/monsters_effects/atlasofworldsbosses/foo.aoc",
        &effect_input,
    )
    .unwrap();
    assert_eq!(effect, effect_input);
    assert_eq!(
        particles("metadata/particles/x.pet", &particle_input),
        utf16("0")
    );
    assert_eq!(
        effects("metadata/effects/spells/x.aoc", &effect_input).unwrap(),
        utf16("client\n{\n  \n}")
    );
}

#[test]
fn capture_driven_patches_discover_expected_path_families() {
    let mut index = index_of(&[
        ("metadata/effects/spells/fireball/fireball.ao", "effects", 12),
        (
            "metadata/effects/spells/monsters_effects/boss/roar.aoc",
            "monster",
            12,
        ),
        (
            "metadata/effects/microtransactions/portal/portal.pet",
            "mtx",
            12,
        ),
        ("metadata/monsters/foo/bar.ot", "monster", 12),
        // particle data under a skill dir: NOT a sound target.
        ("metadata/effects/spells/fireball/fireball.pet", "effects", 12),
    ]);

    let candidates = collect(
        &mut index,
        &[
            PatchId::SkillSounds,
            PatchId::MonsterSounds,
            PatchId::MtxSoft,
        ],
    )
    .unwrap();
    let paths = paths_of(&dedup_candidates(candidates));

    assert!(paths.contains(&"metadata/effects/spells/fireball/fireball.ao".to_string()));
    assert!(paths.contains(&"metadata/effects/spells/monsters_effects/boss/roar.aoc".to_string()));
    assert!(paths.contains(&"metadata/effects/microtransactions/portal/portal.pet".to_string()));
    assert!(paths.contains(&"metadata/monsters/foo/bar.ot".to_string()));
    assert!(!paths.contains(&"metadata/effects/spells/fireball/fireball.pet".to_string()));
}

#[test]
fn sound_transform_reproduces_captured_output_byte_for_byte() {
    let before = "version 3\r\nextends \"Metadata/Parent\"\r\n\r\nclient\r\n{\r\n\t\
ParticleEffects\r\n\t{\r\n\t\tanimations = '[\n\t\t\t{\n\t\t\t\t\"name\": \"once\"\n\t\t\t}\n\t\t]'\r\n\t}\r\n\t\r\n\t\
SoundEvents\r\n\t{\r\n\t\tanimations = '[\n\t\t\t{\n\t\t\t\t\"type\": \"SoundEventType\",\n\t\t\t\t\"filename\": \"Audio/x\"\n\t\t\t}\n\t\t]'\r\n\t}\r\n}";
    let after = "version 3\r\nextends \"Metadata/Parent\"\r\n\r\nclient\r\n{\r\n\t\
ParticleEffects\r\n\t{\r\n\t\tanimations = '[\n\t\t\t{\n\t\t\t\t\"name\": \"once\"\n\t\t\t}\n\t\t]'\r\n\t}\r\n\t\r\n\t\
SoundEvents {}\r\n}";

    let out = transform(
        PatchId::SkillSounds,
        "metadata/effects/spells/absolution_blast/aoe_explosion_01.ao",
        &utf16(before),
        "2.4",
    )
    .unwrap();

    assert_eq!(out, utf16(after));
    assert!(text_of(&out).contains("\"name\": \"once\""));
}

#[test]
fn sound_transform_empties_sound_blocks_and_preserves_structure() {
    let input = utf16(
        "version 3\nclient\n{\n\tSoundEvents\n\t{\n\t\tanimations = 'aaa'\n\t}\n\tSoundParams\n\t{\n\t\tanimations = 'bbb'\n\t}\n\tAnimatedRender\n\t{\n\t\tkeep = true\n\t}\n}",
    );
    let out = transform(
        PatchId::DisableSounds,
        "metadata/effects/spells/fireball/fireball.ao",
        &input,
        "2.4",
    )
    .unwrap();
    let text = text_of(&out);

    assert!(text.contains("SoundEvents {}"));
    assert!(text.contains("SoundParams {}"));
    assert!(!text.contains("aaa"));
    assert!(!text.contains("bbb"));
    assert!(text.contains("keep = true"));
    assert_eq!(text.matches('{').count(), text.matches('}').count());
}

#[test]
fn emptying_named_blocks_twice_changes_nothing_more() {
    let once = |text: &str| string_of(&empty_named_blocks(&chars_of(text), &["S"]));
    for (input, output) in [
        ("a { S { x } } S{y}", "a { S {} } S {}"),
        ("S {  \n } T { S { S { q } } }", "S {  \n } T { S {} }"),
        ("S { x", "S { x"),
        ("\"S { x }\" S { \"}\" }", "\"S { x }\" S {}"),
        ("S", "S"),
    ] {
        assert_eq!(once(input), output);
        assert_eq!(once(output), output);
    }
}

#[test]
fn mtx_soft_empties_effect_data_files_and_leaves_anim_files_alone() {
    let stuff = utf16("stuff");
    let epk = transform(
        PatchId::MtxSoft,
        "metadata/effects/microtransactions/portal/portal.epk",
        &stuff,
        "2.4",
    )
    .unwrap();
    assert_eq!(epk, vec![0xff, 0xfe]);
    for ext in ["pet", "trl"] {
        let out = transform(
            PatchId::MtxSoft,
            &format!("metadata/effects/microtransactions/portal/portal.{ext}"),
            &stuff,
            "2.4",
        )
        .unwrap();
        assert_eq!(out, utf16("0"));
    }
    let ao_in = utf16("version 3\nclient\n{\n}");
    let ao = transform(
        PatchId::MtxSoft,
        "metadata/effects/microtransactions/portal/portal.ao",
        &ao_in,
        "2.4",
    )
    .unwrap();
    assert_eq!(ao, ao_in);
}

#[test]
fn startup_scene_protection_matches_character_selection_anywhere_in_path() {
    let input = utf16("version 3\nclient\n{\n\tSoundEvents\n\t{\n\t\tx = 1\n\t}\n}");
    let out = transform(
        PatchId::DisableSounds,
        "metadata/effects/misc/CharacterSelection/gallows.ao",
        &input,
        "2.4",
    )
    .unwrap();

    assert_eq!(out, input);
}

#[test]
fn sound_patch_skips_character_selection_assets() {
    let startup_scene =
        "Metadata/Terrain/CharacterSelection/CharacterSelectionGallows/Gallows_MainBuilding_fx.ao";
    let mut index = index_of(&[
        (startup_scene, "startup", 12),
        ("metadata/terrain/trees/tree.ao", "terrain", 12),
    ]);

    let candidates = collect(&mut index, &[PatchId::DisableSounds]).unwrap();
    let paths = paths_of(&dedup_candidates(candidates));

    assert!(!paths.contains(&startup_scene.to_string()));
    assert!(paths.contains(&"metadata/terrain/trees/tree.ao".to_string()));
}

#[test]
fn startup_scene_protection_covers_underscore_char_selection_variant() {
    for path in [
        "metadata/effects/misc/char_selection/dexintfour_fxtest.ao",
        "metadata/effects/misc/char_selection/epk/char_body.epk",
        "metadata/effects/misc/char_selection/fx/char_arm.pet",
        "metadata/particles/enviro_effects/gallowscharacterselection/brazier/fire.pet",
    ] {
        assert!(
            is_startup_scene_protected(path),
            "expected protected: {path}"
        );
    }
    assert!(!is_startup_scene_protected(
        "metadata/effects/spells/fireball/fireball.ao"
    ));
}

#[test]
fn targets_are_files_that_the_patch_changes() {
    for (patch, path) in [
        (PatchId::Camera, "Metadata\\Monsters\\x.OTC"),
        (PatchId::Minimap, "Shaders\\Minimap_Blending_Pixel.hlsl"),
        (PatchId::Delirium, "metadata/effects/environment/league_affliction/a.aoc"),
        (PatchId::Particles, "metadata/particles/a.trl"),
        (PatchId::MonsterSounds, "metadata/monsters/a.ot"),
        (PatchId::MtxSoft, "metadata/effects/microtransactions/a.epk"),
    ] {
        assert!(patch_targets_path(patch, path));
        assert!(patch_applies_path(patch, path));
    }
    assert!(!patch_targets_path(PatchId::Camera, "x/metadata/y.ot"));
    assert!(patch_applies_path(PatchId::Camera, "x/metadata/y.ot"));
    assert!(!patch_targets_path(
        PatchId::DisableSounds,
        "metadata/environmentsettings/a.ao"
    ));
    assert!(audit_transform(PatchId::Fog, "a.txt", b"").is_none());
    assert_eq!(
        audit_transform(PatchId::Particles, "metadata/particles/a.pet", b"").unwrap(),
        Ok(utf16("0"))
    );
}

#[test]
fn minimap_shaders_are_brightened() {
    let visibility = "shaders/minimap_visibility_pixel.hlsl";
    let red = "res_color = float4(1.0f, 0.0f, 0.0f, 1.0f);";
    let input = format!("a\r\n  {red}\r\nb");
    let out = minimap(visibility, input.as_bytes());
    let expected = format!("a\r\n  {red}\r\n\tres_color = max(res_color, 0.18f);\r\nb");
    assert_eq!(out, expected.as_bytes());
    assert_eq!(minimap(visibility, &out), expected.as_bytes());
    let blending = "shaders/minimap_blending_pixel.hlsl";
    assert_eq!(
        minimap(
            blending,
            b"float4 walkable_color = float4(1.0f, 1.0f, 1.0f, 0.01f); x"
        ),
        b"float4 walkable_color = float4(0.0f, 0.0f, 0.0f, 0.3f); x"
    );
    // Bytes that are no text become the replacement character.
    assert_eq!(minimap("other", b"a\xffb"), "a\u{fffd}b".as_bytes());
}

#[test]
fn atlas_graphs_lose_nodes_and_links() {
    let path = "metadata/materials/environment/worldmap/worldmap_fogofwar.fxgraph";
    let input = utf16("{\"nodes\": [[1],[2]], \"links\": [3] , \"x\": [4]}");
    let out = transform(PatchId::AtlasFog, path, &input, "2.4").unwrap();
    assert_eq!(
        text_of(&out),
        "{\"nodes\": [], \"links\": [], \"x\": [4]}"
    );
    let far = "{\"nodes\": [1]       , \"x\": 1}";
    let replaced =
        |text: &str| string_of(&replace_array_property(&chars_of(text), &chars_of("nodes")));
    assert_eq!(replaced(far), far);
    assert_eq!(replaced("\"nodes\": [1"), "\"nodes\": [1");
    assert_eq!(replaced("\"nodes\": 1"), "\"nodes\": 1");
    assert_eq!(replaced("\"links\": [1],"), "\"links\": [1],");
    // The array is found wherever it stands in the text.
    assert_eq!(
        replaced("éé\"nodes\": [\u{20ac}bc[1]], \"x\": [2]"),
        "éé\"nodes\": [], \"x\": [2]"
    );
    let input = utf16("éé\"nodes\": [\u{20ac}bc], \"links\": [é],");
    let out = transform(PatchId::AtlasFog, path, &input, "2.4").unwrap();
    assert_eq!(text_of(&out), "éé\"nodes\": [], \"links\": [],");
}

#[test]
fn delirium_effects_become_templates() {
    let run = |text: &str| {
        text_of(
            &transform(
                PatchId::Delirium,
                "metadata/effects/environment/league_affliction/a.ao",
                &utf16(text),
                "2.4",
            )
            .unwrap(),
        )
    };
    assert_eq!(
        run("extends \"Metadata/FmtParent\""),
        "version 3\nextends \"Metadata/FmtParent\""
    );
    assert!(run("Metadata/FmtParent AnimatedRender").contains("cannot_be_disabled = true"));
    assert!(run("Metadata/Parent").contains("weather_rig.ast"));
    assert_eq!(run("else"), "else");
}

#[test]
fn utf16_files_read_back() {
    for text in ["", "a", "é€😀", "x\ny"] {
        let bytes = utf16(text);
        assert_eq!(bytes[..2], [0xff, 0xfe]);
        assert_eq!(text_of(&bytes), text);
    }
    assert_eq!(text_of(&utf16("\u{feff}a")), "a");
    assert_eq!(utf16("A"), [0xff, 0xfe, 0x41, 0]);
}

#[test]
fn patch_sets_are_computed_from_bundles() {
    let env = utf16("\"fog\"");
    let mut data = b"junk".to_vec();
    data.extend_from_slice(&env);
    let candidates = vec![IndexedPath {
        path: "metadata/environmentsettings/a.env".to_string(),
        file: BundleFile {
            hash: 1,
            bundle_index: 0,
            bundle_name: "env".to_string(),
            offset: 4,
            size: env.len() as u32,
            record_pos: 0,
        },
    }];
    let mut bundles = vec![BundleContent {
        name: "env".to_string(),
        data,
    }];
    let set = compute_patch_set(&candidates, &bundles, &[PatchId::Fog, PatchId::Fog], "2.4").unwrap();
    assert_eq!(set.changes.len(), 1);
    assert_eq!(set.changes[0].new_size, env.len());
    assert_eq!(set.into_edits()[0].1, utf16("\"xog\""));

    bundles[0].data.pop();
    assert_eq!(
        compute_patch_set(&candidates, &bundles, &[PatchId::Fog], "2.4").unwrap_err(),
        PatchSetError::SliceExceedsBundle(0)
    );
    bundles[0].name = "other".to_string();
    assert_eq!(
        compute_patch_set(&candidates, &bundles, &[PatchId::Fog], "2.4").unwrap_err(),
        PatchSetError::BundleMissing(0)
    );
    bundles[0].name = "env".to_string();
    bundles[0].data = vec![0xd8; 20];
    assert_eq!(
        compute_patch_set(&candidates, &bundles, &[PatchId::Fog], "2.4").unwrap_err(),
        PatchSetError::Transform(0, TransformError::InvalidUtf16)
    );
}

#[test]
fn patches_and_presets_go_by_their_names() {
    assert_eq!(all_patches().len(), 16);
    assert_eq!(every_named_patch().len(), 19);
    assert_eq!(parse_patch("black-screen"), Some(PatchId::BlackScreen));
    assert_eq!(parse_patch("Color-Mods"), Some(PatchId::ColorMods));
    assert_eq!(parse_patch("monster-hp-bar"), Some(PatchId::MonsterHpBar));
    assert_eq!(all_presets().len(), 7);
    let black = parse_preset("black-screen").unwrap();
    assert_eq!(black.patches, [PatchId::BlackScreen]);
    for patch in every_named_patch().into_iter().filter_map(patch_info) {
        assert_eq!(parse_patch(patch.name), Some(patch.id));
        assert_eq!(parse_patch(&patch.name.to_uppercase()), Some(patch.id));
        assert_eq!(patch_info(patch.id).unwrap().name, patch.name);
    }
    assert_eq!(parse_patch("Zero-Particles"), Some(PatchId::Particles));
    assert_eq!(parse_patch("nothing"), None);
    assert_eq!(
        parse_preset("Daylight").unwrap().patches,
        [
            PatchId::Fog,
            PatchId::Shadow,
            PatchId::Light,
            PatchId::EnvParticles,
            PatchId::Delirium
        ]
    );
    assert!(parse_preset("none").is_none());
    let all = parse_preset("check-all").unwrap();
    assert_eq!(all.patches, every_patch());
    assert_eq!(all.description, "Select every ported patch.");
    assert_eq!(
        unique_patches(&[PatchId::Rain, PatchId::Fog, PatchId::Rain]),
        [PatchId::Rain, PatchId::Fog]
    );
}

#[test]
fn all_listed_patches_can_be_collected() {
    let paths = [
        "metadata/a.ot",
        "shaders/minimap_visibility_pixel.hlsl",
        "metadata/materials/environment/worldmap/worldmap_fogofwar.fxgraph",
        "metadata/effects/environment/league_affliction/a.ao",
        "metadata/particles/a.pet",
        "metadata/effects/spells/a.ao",
        "metadata/terrain/a.ao",
        "metadata/monsters/a.ao",
        "metadata/effects/microtransactions/a.ao",
        "metadata/environmentsettings/a.env",
    ];
    let files: Vec<(&str, &str, u32)> = paths.iter().map(|path| (*path, "b", 1)).collect();
    let found = collect(&mut index_of(&files), &every_patch()).unwrap();
    let mut names = paths_of(&found);
    names.sort();
    names.dedup();
    let mut expected = paths.to_vec();
    expected.sort();
    assert_eq!(names, expected);
    // The patches whose files are not known are named, and refused.
    for id in every_named_patch().into_iter().skip(16) {
        assert!(matches!(
            collect(&mut index_of(&files), &[id]),
            Err(TargetError::NoFiles(_))
        ));
    }
}

#[test]
fn paths_are_matched_without_their_case() {
    let mut index = index_of(&[("Metadata/A.ao", "b", 1), ("art/a.dds", "b", 1)]);
    let found = index
        .matching_paths(&Vec::new(), "metadata/", &vec![".ao".to_string()])
        .unwrap();
    assert_eq!(paths_of(&found), ["Metadata/A.ao"]);
    assert!(starts_with_path_ci("Metadata\\X", "metadata/"));
    assert!(!starts_with_path_ci("meta", "metadata"));
    assert!(ends_with_path_ci("a/B.AO", ".ao"));
    assert!(eq_path_ci("A\\b", "a/B"));
    assert!(!eq_path_ci("a/b", "a/c"));
}
