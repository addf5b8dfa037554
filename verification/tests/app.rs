use tiny_poe2smoother::app::{
    backup_label, classify_patch_state, ensure_can_apply, find_paths, index_is_patched,
    inspect_path, is_stat_description, list_patch_ids, parse_patch_names, patch_names,
    patch_state_label, preset_names, resolve_patch_selection, PatchSelection, PatchState,
    SelectionError,
};
use tiny_poe2smoother::choices::{
    count_selected, enabled_actions, entered_game_dir, preset_is_active, requested_patches,
    restored_selection, saved_selection, select_patches, DialogAction, DialogEvent, Dialogs,
    RequestError,
};
use tiny_poe2smoother::color_editor::ColorModEntry;
use tiny_poe2smoother::index::BundleIndex;
use tiny_poe2smoother::install::InstallLayout;
use tiny_poe2smoother::labels::{
    applied_message, count_label, display_name, display_name_given, hover_key_list, kept_caption,
    monster_context_label, patch_state_pill, restored_message,
};
use tiny_poe2smoother::patches::{all_patches, PatchId};
use tiny_poe2smoother::tools::{
    content_hash, ext_of, flag_value, manifest_line, record_diff, sample_files, synth_data,
    ChangeRow, MissingValue, RecordDiff,
};

fn names(list: &[&str]) -> Vec<String> {
    list.iter().map(|s| s.to_string()).collect()
}

#[test]
fn patch_state_classifies_backup_and_index_combinations() {
    assert_eq!(classify_patch_state(false, false), PatchState::Clean);
    assert_eq!(classify_patch_state(true, true), PatchState::Patched);
    assert_eq!(classify_patch_state(true, false), PatchState::StaleBackup);
    assert_eq!(
        classify_patch_state(false, true),
        PatchState::PatchedMissingBackup
    );
}

#[test]
fn patch_states_have_their_labels() {
    assert_eq!(patch_state_label(PatchState::Clean), "not patched");
    assert_eq!(backup_label(PatchState::StaleBackup), "obsolete");
    assert_eq!(patch_state_pill(PatchState::PatchedMissingBackup), "Backup missing");
    assert!(PatchState::Patched.can_restore());
    assert!(!PatchState::PatchedMissingBackup.can_restore());
    assert!(PatchState::PatchedMissingBackup.is_currently_patched());
    assert!(PatchState::StaleBackup.has_stale_backup());
}

#[test]
fn stale_backup_does_not_block_apply() {
    assert!(ensure_can_apply(PatchState::Clean).is_ok());
    assert!(ensure_can_apply(PatchState::StaleBackup).is_ok());
}

#[test]
fn currently_patched_index_blocks_apply() {
    let backup_path = "/tmp/poe2.bak";

    let with_backup = ensure_can_apply(PatchState::Patched)
        .unwrap_err()
        .message(backup_path);
    let without_backup = ensure_can_apply(PatchState::PatchedMissingBackup)
        .unwrap_err()
        .message(backup_path);

    assert!(with_backup.contains("already patched"));
    assert!(without_backup.contains("no backup was found"));
    assert!(with_backup.ends_with(backup_path));
}

#[test]
fn all_selects_every_patch_including_capture_backed_ones() {
    let patches = resolve_patch_selection(&PatchSelection {
        all: true,
        ..PatchSelection::default()
    })
    .unwrap();

    assert_eq!(patches.len(), all_patches().len());
    assert!(patches.contains(&PatchId::Fog));
    assert!(patches.contains(&PatchId::DisableSounds));
    assert!(patches.contains(&PatchId::MtxSoft));
    assert_eq!(patches, list_patch_ids());
}

#[test]
fn sound_and_mtx_patches_resolve_without_any_opt_in() {
    let resolved = resolve_patch_selection(&PatchSelection {
        patches: vec![
            "disable-sounds".to_string(),
            "skill-sounds".to_string(),
            "monster-sounds".to_string(),
            "mtx-soft".to_string(),
        ],
        ..PatchSelection::default()
    })
    .unwrap();

    assert_eq!(
        resolved,
        vec![
            PatchId::DisableSounds,
            PatchId::SkillSounds,
            PatchId::MonsterSounds,
            PatchId::MtxSoft,
        ]
    );
    assert_eq!(patch_names(&resolved[..2]), ["disable-sounds", "skill-sounds"]);
}

#[test]
fn removed_destructive_patches_are_unknown() {
    for name in [
        "zero-effects",
        "remove-players",
        "remove-monsters",
        "clean-terrain",
        "zero-materials",
        "mtx-full",
    ] {
        let err = resolve_patch_selection(&PatchSelection {
            patches: vec![name.to_string()],
            ..PatchSelection::default()
        })
        .unwrap_err()
        .message();
        assert!(err.contains("unknown patch"), "{name}: {err}");
    }
}

#[test]
fn presets_expand_and_aliases_resolve() {
    let maps = resolve_patch_selection(&PatchSelection {
        presets: vec!["maps-revealed".to_string()],
        patches: vec!["zero-particles".to_string()],
        ..PatchSelection::default()
    })
    .unwrap();

    assert_eq!(
        maps,
        vec![PatchId::Minimap, PatchId::AtlasFog, PatchId::Particles]
    );
    assert_eq!(preset_names()[0], "maps-revealed");
}

#[test]
fn selections_that_stand_for_nothing_are_refused() {
    assert!(matches!(
        parse_patch_names(Vec::new(), false),
        Err(SelectionError::NothingSelected)
    ));
    assert_eq!(
        SelectionError::NothingSelected.message(),
        "select at least one --patch/--preset or use --all"
    );
    let err = resolve_patch_selection(&PatchSelection {
        presets: names(&["daylight", "night"]),
        patches: names(&["nothing"]),
        all: false,
    })
    .unwrap_err();
    assert_eq!(err.message(), "unknown preset: night");
    assert_eq!(parse_patch_names(names(&["fog", "FOG"]), false).unwrap(), [PatchId::Fog]);
}

#[test]
fn count_label_pluralizes() {
    assert_eq!(count_label(0, "skill"), "0 skills");
    assert_eq!(count_label(1, "skill"), "1 skill");
    assert_eq!(count_label(2, "monster"), "2 monsters");
}

#[test]
fn monster_context_label_formats_the_rendered_suffix() {
    assert_eq!(
        monster_context_label("Viper Legionnaire"),
        "· Viper Legionnaire"
    );
}

#[test]
fn labels_are_spelled_out() {
    assert_eq!(display_name("atlas-fog"), "Atlas fog");
    assert_eq!(display_name("mtx-soft"), "MTX soft");
    assert_eq!(display_name("é-mtx"), "É MTX");
    assert_eq!(display_name(""), "");
    let spaced: Vec<char> = "xmtx Mtx".chars().collect();
    assert_eq!(display_name_given(&spaced, "SS"), "SSMTX MTX");
    assert_eq!(display_name_given(&[], "A"), "");
    assert_eq!(kept_caption(0, 0), "all effects reduced");
    assert_eq!(kept_caption(1, 0), "1 skill · 0 monsters kept original");
    assert_eq!(
        applied_message(3, 2, "/b"),
        "Applied 3 file(s). Touched 2 bundle/index file(s). Backup: /b"
    );
    let keys: Vec<String> = (0..14).map(|i| format!("k{i}")).collect();
    assert_eq!(hover_key_list(&keys[..2].to_vec()), "k0\nk1");
    assert!(hover_key_list(&keys).ends_with("k11\n… 2 more"));
    assert_eq!(hover_key_list(&Vec::new()), "");
}

#[test]
fn tiny_poe2smoother_gui_prefs_restore_valid_patch_names_and_ignore_unknown_entries() {
    let selected = restored_selection(&names(&["fog", "unknown"]));
    assert!(selected.contains(&PatchId::Fog));
    assert_eq!(selected.len(), 1);
}

#[test]
fn main_prefs_restore_valid_patch_names_and_ignore_unknown_entries() {
    let selected = restored_selection(&names(&["fog", "unknown"]));
    assert!(selected.contains(&PatchId::Fog));
    assert_eq!(selected.len(), 1);
    // Nothing known: the defaults.
    assert_eq!(
        restored_selection(&names(&["unknown"])),
        [PatchId::Minimap, PatchId::Fog, PatchId::Rain]
    );
    let saved: Vec<String> = saved_selection(&[PatchId::Rain, PatchId::Camera])
        .iter()
        .map(|s| s.to_string())
        .collect();
    assert_eq!(saved, ["camera", "rain"]);
    assert_eq!(restored_selection(&saved), [PatchId::Camera, PatchId::Rain]);
}

#[test]
fn requests_hold_the_selection_with_the_camera_last() {
    let none = Vec::new();
    let nothing = requested_patches(&[], &none).unwrap_err();
    assert_eq!(nothing, RequestError::NothingSelected);
    assert_eq!(nothing.message(), "Select at least one patch.");
    assert_eq!(
        requested_patches(&[PatchId::Rain, PatchId::Camera, PatchId::Fog], &none).unwrap(),
        [PatchId::Fog, PatchId::Rain, PatchId::Camera]
    );
    let mut selected = vec![PatchId::Fog];
    let preset = [PatchId::Minimap, PatchId::Fog];
    assert!(!preset_is_active(&selected, &preset));
    assert_eq!(count_selected(&selected, &preset), 1);
    select_patches(&mut selected, &preset);
    assert_eq!(selected, [PatchId::Fog, PatchId::Minimap]);
    assert!(preset_is_active(&selected, &preset));
}

#[test]
fn color_mods_need_an_enabled_color() {
    let color = |enabled| ColorModEntry {
        stat_id: "map_monsters_damage_+%".to_string(),
        color: [1, 2, 3],
        enabled,
    };
    let selected = [PatchId::ColorMods, PatchId::Fog];
    for mods in [Vec::new(), vec![color(false)]] {
        let refused = requested_patches(&selected, &mods).unwrap_err();
        assert_eq!(refused, RequestError::NoColorEnabled);
        assert_eq!(
            refused.message(),
            "Color mods is selected but no mods are enabled — use Edit colors…"
        );
        assert!(requested_patches(&[PatchId::Fog], &mods).is_ok());
    }
    assert_eq!(
        requested_patches(&selected, &vec![color(false), color(true)]).unwrap(),
        [PatchId::Fog, PatchId::ColorMods]
    );
}

#[test]
fn folders_are_trimmed() {
    assert_eq!(entered_game_dir(" \t/a b\u{3000}").as_deref(), Some("/a b"));
    assert_eq!(entered_game_dir(" \n"), None);
    assert_eq!(entered_game_dir(""), None);
}

#[test]
fn nothing_starts_without_confirmation_or_while_the_game_runs() {
    let mut dialogs = Dialogs::new();
    let refused = DialogEvent::ApplyPressed { request_valid: false };
    assert_eq!(dialogs.handle(refused), DialogAction::ShowRequestError);
    assert!(!dialogs.confirm_apply);
    let pressed = DialogEvent::ApplyPressed { request_valid: true };
    assert_eq!(dialogs.handle(pressed), DialogAction::Nothing);
    assert!(dialogs.confirm_apply);
    let running = DialogEvent::ApplyConfirmed {
        game_running: true,
        request_valid: true,
    };
    assert_eq!(dialogs.handle(running), DialogAction::Nothing);
    assert!(dialogs.game_running && !dialogs.confirm_apply);
    assert_eq!(
        dialogs.handle(DialogEvent::GameRunningDismissed),
        DialogAction::Nothing
    );
    assert!(!dialogs.game_running);
    let confirmed = DialogEvent::ApplyConfirmed {
        game_running: false,
        request_valid: true,
    };
    assert_eq!(dialogs.handle(confirmed), DialogAction::Apply);
    dialogs.handle(DialogEvent::RestorePressed);
    assert!(dialogs.confirm_restore);
    assert_eq!(
        dialogs.handle(DialogEvent::RestoreConfirmed { game_running: false }),
        DialogAction::Restore
    );
    assert!(!dialogs.confirm_restore);
    assert_eq!(enabled_actions(None, false), (true, false));
    assert_eq!(enabled_actions(Some(PatchState::Patched), false), (false, true));
    assert_eq!(enabled_actions(Some(PatchState::Clean), true), (false, false));
}

fn small_index(bundles: &[&str], paths: &[&str]) -> BundleIndex {
    let mut raw = Vec::new();
    raw.extend_from_slice(&(bundles.len() as u32).to_le_bytes());
    for name in bundles {
        raw.extend_from_slice(&(name.len() as u32).to_le_bytes());
        raw.extend_from_slice(name.as_bytes());
        raw.extend_from_slice(&0u32.to_le_bytes());
    }
    raw.extend_from_slice(&0u32.to_le_bytes());
    raw.extend_from_slice(&1u32.to_le_bytes());
    raw.extend_from_slice(&0x07E47507B4A92E53u64.to_le_bytes());
    raw.extend_from_slice(&[0; 12]);
    let mut index = BundleIndex::parse(raw).unwrap();
    index.paths = Some(names(paths));
    index
}

#[test]
fn patched_indexes_are_recognised() {
    assert!(!index_is_patched(&small_index(&["a", "xTinyPoe2Smoother/"], &[])));
    assert!(index_is_patched(&small_index(&["a", "TinyPoe2Smoother/0"], &[])));
    assert!(index_is_patched(&small_index(&["TinyPoe2Smoother_3"], &[])));
    assert!(index_is_patched(&small_index(&["LibGGPK3/x"], &[])));
}

#[test]
fn paths_are_found_whatever_their_case() {
    let index = small_index(&[], &["Metadata/Foo.ot", "a/b", "x/FOO"]);
    let found = find_paths(&index, "fOO", 10);
    let paths: Vec<&str> = found.iter().map(|f| f.path.as_str()).collect();
    assert_eq!(paths, ["Metadata/Foo.ot", "x/FOO"]);
    assert!(!found[0].has_record);
    assert_eq!(find_paths(&index, "foo", 1).len(), 1);
    assert_eq!(find_paths(&index, "", 10).len(), 3);
}

#[test]
fn files_are_inspected_as_text() {
    let seen = inspect_path("p", "héllo".as_bytes(), 3);
    assert_eq!(seen.size, 6);
    assert_eq!(seen.bytes, [0x68, 0xc3, 0xa9]);
    assert_eq!(seen.text_preview.as_deref(), Some("hél"));
    let seen = inspect_path("p", &[0xff, 0xfe, 0x41, 0, 0x42, 0], 10);
    assert_eq!(seen.text_preview.as_deref(), Some("\u{feff}AB"));
    assert_eq!(inspect_path("p", &[0xff, 0xff], 10).text_preview, None);
    assert_eq!(inspect_path("p", &[0xff, 0xfe, 0, 0xd8], 10).text_preview, None);
}

#[test]
fn stat_descriptions_lie_in_one_folder() {
    assert!(is_stat_description("Data\\StatDescriptions\\stat_descriptions.csd"));
    assert!(!is_stat_description("data/statdescriptions/x/y.csd"));
    assert!(!is_stat_description("data/statdescriptions/x.txt"));
    assert!(!is_stat_description("x/data/statdescriptions/x.csd"));
}

#[test]
fn tools_tell_files_apart() {
    assert_eq!(content_hash(b""), 0xcbf29ce484222325);
    assert_eq!(content_hash(b"a"), 0xaf63dc4c8601ec8c);
    assert_eq!(ext_of("a/b.c/d.env"), ".env");
    assert_eq!(ext_of("none"), "");
    let file = |bundle: &str, size: u32| tiny_poe2smoother::index::BundleFile {
        hash: 0,
        bundle_index: 0,
        bundle_name: bundle.to_string(),
        offset: 0,
        size,
        record_pos: 0,
    };
    assert_eq!(record_diff(None, &file("a", 1)), RecordDiff::Added);
    assert_eq!(record_diff(Some(&file("b", 1)), &file("a", 1)), RecordDiff::Changed);
    assert_eq!(record_diff(Some(&file("a", 2)), &file("a", 1)), RecordDiff::Changed);
    assert_eq!(record_diff(Some(&file("a", 1)), &file("a", 1)), RecordDiff::SameRecord);
    let row = ChangeRow {
        path: "x/y.ao".to_string(),
        status: "added",
        before_bundle: String::new(),
        after_bundle: "b".to_string(),
        before_size: None,
        after_size: 7,
        content_hash: 0xab,
    };
    assert_eq!(manifest_line(&row), "x/y.ao,added,,b,-1,7,00000000000000ab,.ao\n");
}

#[test]
fn benchmarks_choose_their_data() {
    assert_eq!(sample_files(&vec![5, 1, 9, 1, 4], 2, 10), [0, 4]);
    assert_eq!(sample_files(&vec![5, 1], 0, 6), [0, 1]);
    assert_eq!(sample_files(&vec![u64::MAX, 1], 1, 6), [1]);
    let args = names(&["synth", "--iters", "3", "--mib"]);
    assert_eq!(flag_value(&args, "--iters"), Ok(Some("3")));
    assert_eq!(flag_value(&args, "--mib"), Err(MissingValue));
    assert_eq!(flag_value(&args, "--x"), Ok(None));
    let data = synth_data(9000);
    assert_eq!(data.len(), 9000);
    assert_eq!(&data[4096..4103], b"path/of");
    let mut state = 0x2545_f491_u32;
    for byte in &data[..4096] {
        state = state.wrapping_mul(1664525).wrapping_add(1013904223);
        assert_eq!(*byte, (state >> 24) as u8);
    }
}
