use tiny_poe2smoother::choices::requested_patches;
use tiny_poe2smoother::color_editor::{
    catalog_row, catalog_text, enabled_count, filter_colors, merge_stat_catalog, CatalogRow,
    ColorModEntry, ColorRowRef, StatCatalogEntry,
};
use tiny_poe2smoother::editor::{
    effect_skill_catalog_rows, is_shared_name, monster_effect_catalog_rows, monster_rows_given,
    EditorRow, EffectSkillCatalogEntry,
    MonsterEffectCatalogEntry,
};
use tiny_poe2smoother::editor_state::{EditorState, FilterKey};
use tiny_poe2smoother::overrides::{EffectLevel, EffectOverride, Overrides};
use tiny_poe2smoother::patches::PatchId;

const MOTHER: &str = "metadata/monsters/anchorite/anchoritemother/anchoritemother";
const RUNEMARKED: &str =
    "metadata/monsters/anchorite/anchoritemother/runemarked/anchoritemotherrunemarked";
const HULK: &str = "metadata/monsters/boghulk/boghulk";

fn list(rows: Option<Vec<EditorRow>>) -> EditorState {
    let mut state = EditorState::new(Overrides::new());
    state.rows = rows;
    state
}

fn saved(key: &str, level: EffectLevel) -> EffectOverride {
    EffectOverride {
        key: key.to_string(),
        level,
    }
}

fn listed(overrides: &Overrides) -> Vec<(String, EffectLevel)> {
    overrides
        .list()
        .into_iter()
        .map(|o| (o.key, o.level))
        .collect()
}

fn monster_row(display: &str, keys: &[&str]) -> EditorRow {
    let keys: Vec<String> = keys.iter().map(|key| key.to_string()).collect();
    EditorRow {
        display_lower: display.to_lowercase(),
        search_lower: format!("{} {}", display.to_lowercase(), keys.join(" ")),
        display: display.to_string(),
        keys,
        active_skill_id: String::new(),
        action_type: String::new(),
        named: true,
        context: None,
    }
}

fn skill_row(keys: &[&str], id: &str, action: &str, display: &str, search: &str) -> EditorRow {
    EditorRow {
        keys: keys.iter().map(|key| key.to_string()).collect(),
        display: display.to_string(),
        display_lower: display.to_lowercase(),
        search_lower: search.to_string(),
        active_skill_id: id.to_string(),
        action_type: action.to_string(),
        named: true,
        context: None,
    }
}

fn fireball_row() -> EditorRow {
    skill_row(
        &["fireball"],
        "fireball",
        "GreaterFireball",
        "Fireball",
        "fireball greaterfireball",
    )
}

#[test]
fn prefs_round_trip_effect_skill_overrides_and_drop_reduced_entries() {
    let overrides = Overrides::from_saved(&vec![
        saved("arc_02", EffectLevel::Reduced),
        saved("fireball", EffectLevel::Full),
    ]);
    assert_eq!(overrides.get("fireball"), Some(EffectLevel::Full));
    // Explicit Reduced entries are meaningless and dropped on load.
    assert_eq!(overrides.get("arc_02"), None);
    assert_eq!(overrides.level("arc_02"), EffectLevel::Reduced);

    // Saved back folder-sorted, non-default only.
    assert_eq!(
        listed(&overrides),
        vec![("fireball".to_string(), EffectLevel::Full)]
    );
}

#[test]
fn overrides_are_saved_in_the_order_of_their_keys() {
    let mut overrides = Overrides::new();
    for key in ["fireball", "arc_02", "ice", "arc"] {
        overrides.insert(key, EffectLevel::Full);
    }
    let keys: Vec<String> = listed(&overrides).into_iter().map(|o| o.0).collect();
    assert_eq!(keys, ["arc", "arc_02", "fireball", "ice"]);
    overrides.set_level("arc_02", EffectLevel::Reduced);
    overrides.remove("ice");
    overrides.remove("nothing");
    let keys: Vec<String> = listed(&overrides).into_iter().map(|o| o.0).collect();
    assert_eq!(keys, ["arc", "fireball"]);
    let again = Overrides::from_saved(&overrides.list());
    assert_eq!(listed(&again), listed(&overrides));
}

#[test]
fn patch_request_embeds_overrides() {
    let mut state = list(None);
    // Keeping every effect is not refused here.
    state.overrides.insert("fireball", EffectLevel::Full);
    assert_eq!(
        requested_patches(&[PatchId::Effects], &Vec::new()).unwrap(),
        vec![PatchId::Effects]
    );
    assert_eq!(
        listed(&state.overrides),
        vec![("fireball".to_string(), EffectLevel::Full)]
    );

    state.overrides = Overrides::new();
    assert!(state.overrides.list().is_empty());
}

#[test]
fn prefs_round_trip_monster_overrides_and_drop_reduced_entries() {
    let overrides = Overrides::from_saved(&vec![
        saved(HULK, EffectLevel::Reduced),
        // Mixed case in old prefs still keys correctly.
        saved(&MOTHER.to_uppercase(), EffectLevel::Full),
    ]);
    assert_eq!(overrides.get(MOTHER), Some(EffectLevel::Full));
    // Explicit Reduced entries are meaningless and dropped on load.
    assert_eq!(overrides.get(HULK), None);
    // Saved back key-sorted, non-default only.
    assert_eq!(
        listed(&overrides),
        vec![(MOTHER.to_string(), EffectLevel::Full)]
    );
}

#[test]
fn patch_request_embeds_monster_overrides() {
    let mut state = list(None);
    state.overrides.insert(HULK, EffectLevel::Full);
    assert_eq!(
        requested_patches(&[PatchId::Effects], &Vec::new()).unwrap(),
        vec![PatchId::Effects]
    );
    assert_eq!(
        listed(&state.overrides),
        vec![(HULK.to_string(), EffectLevel::Full)]
    );
}

#[test]
fn monsters_filter_matches_display_and_key_text() {
    let mut state = list(Some(vec![
        monster_row("Filthy First-born", &[MOTHER]),
        monster_row("Bog Hulk", &[HULK]),
    ]));

    state.search = "anchoritemother".to_string();
    state.refresh_filter();
    assert_eq!(state.filter_rows, vec![0]);

    state.search.clear();
    state.refresh_filter();
    assert_eq!(state.filter_rows, vec![0, 1]);
}

#[test]
fn monster_bulk_level_applies_to_filtered_rows_only() {
    let mut state = list(Some(vec![
        monster_row("Filthy First-born", &[MOTHER, RUNEMARKED]),
        monster_row("Bog Hulk", &[HULK]),
    ]));

    state.search = "first-born".to_string();
    state.apply_level_to_filtered_rows(EffectLevel::Full);
    assert_eq!(state.overrides.get(MOTHER), Some(EffectLevel::Full));
    assert_eq!(state.overrides.get(RUNEMARKED), Some(EffectLevel::Full));
    assert_eq!(state.overrides.get(HULK), None);

    state.apply_level_to_filtered_rows(EffectLevel::Reduced);
    assert!(state.overrides.entries.is_empty());
}

#[test]
fn kept_original_monster_count_groups_rows_and_keeps_stale_keys() {
    let mut state = list(None);
    state.overrides.insert(MOTHER, EffectLevel::Full);
    state.overrides.insert(RUNEMARKED, EffectLevel::Full);
    // Without a catalog every overridden key counts once.
    assert_eq!(state.kept_original_count(), 2);

    // With the catalog the two variants collapse into one row; a stale
    // key absent from the catalog still counts.
    state.rows = Some(vec![monster_row("Filthy First-born", &[MOTHER, RUNEMARKED])]);
    assert_eq!(state.kept_original_count(), 1);
    state
        .overrides
        .insert("metadata/monsters/removed/removed", EffectLevel::Full);
    assert_eq!(state.kept_original_count(), 2);

    // A mixed row (only one variant still Full) stays counted.
    state.overrides.remove(RUNEMARKED);
    assert_eq!(state.kept_original_count(), 2);
}

fn invalidates(row: EditorRow, key: &str) {
    let mut state = list(Some(vec![row]));
    state.rows_dir = Some("/install/A".to_string());
    state.filter_key = Some(FilterKey {
        search: "q".to_string(),
        show_unnamed: false,
        row_count: 1,
    });
    state.filter_rows = vec![0];
    state.overrides.insert(key, EffectLevel::Full);

    // Same dir: nothing is discarded.
    state.invalidate_if_stale(&Some("/install/A".to_string()));
    assert!(state.rows.is_some());
    assert!(state.filter_key.is_some());
    assert_eq!(state.filter_rows, vec![0]);

    // Different dir: catalog + filter cache reset, overrides untouched.
    state.invalidate_if_stale(&Some("/install/B".to_string()));
    assert!(state.rows.is_none());
    assert!(!state.loading);
    assert!(state.error.is_none());
    assert!(state.filter_key.is_none());
    assert!(state.filter_rows.is_empty());
    assert_eq!(state.overrides.get(key), Some(EffectLevel::Full));
}

#[test]
fn monster_catalog_invalidates_only_when_game_dir_changes() {
    invalidates(monster_row("Bog Hulk", &[HULK]), HULK);
}

#[test]
fn effect_catalog_invalidates_only_when_game_dir_changes() {
    invalidates(fireball_row(), "fireball");
}

#[test]
fn monster_catalog_rows_carry_search_text_and_variant_keys() {
    let rows = monster_effect_catalog_rows(vec![MonsterEffectCatalogEntry {
        display: "Filthy First-born".to_string(),
        monster_keys: vec![MOTHER.to_string()],
        family: "anchorite".to_string(),
        search_aliases: vec!["shroomlady".to_string()],
    }]);

    assert_eq!(rows.len(), 1);
    assert_eq!(rows[0].display, "Filthy First-born");
    assert_eq!(rows[0].display_lower, "filthy first-born");
    assert!(rows[0].search_lower.contains("anchorite"));
    assert!(rows[0].search_lower.contains("anchoritemother"));
    // Hand-verified aliases are searchable but never shown as the name.
    assert!(rows[0].search_lower.contains("shroomlady"));
    assert!(!rows[0].display.contains("shroomlady"));
}

#[test]
fn monster_catalog_rows_suffix_family_on_duplicate_display_names() {
    let entry = |display: &str, family: &str, key: &str| MonsterEffectCatalogEntry {
        display: display.to_string(),
        monster_keys: vec![key.to_string()],
        family: family.to_string(),
        search_aliases: Vec::new(),
    };
    let rows = monster_effect_catalog_rows(vec![
        entry("Daemon", "daemon", "metadata/monsters/daemon/daemon"),
        entry(
            "Daemon",
            "leaguedelirium",
            "metadata/monsters/leaguedelirium/deliriumskilldaemoncold",
        ),
        entry("Bog Hulk", "boghulk", "metadata/monsters/boghulk/boghulk"),
    ]);

    // Duplicate display names get the family suffix; unique ones do not.
    assert_eq!(rows[0].display, "Daemon (daemon)");
    assert_eq!(rows[1].display, "Daemon (leaguedelirium)");
    assert_eq!(rows[2].display, "Bog Hulk");
    // The filter still keys off the raw display text.
    assert!(rows.iter().take(2).all(|row| row.display_lower == "daemon"));
}

#[test]
fn effects_filter_matches_folder_and_display_text() {
    let mut state = list(Some(vec![
        skill_row(
            &["cold_herald_of_ice"],
            "herald_of_ice",
            "HeraldofIce",
            "Herald of Ice",
            "cold_herald_of_ice",
        ),
        skill_row(&["fireball"], "fireball", "Fireball", "Fireball", "fireball"),
    ]));

    state.search = "herald ice".to_string();
    state.refresh_filter();
    assert_eq!(state.filter_rows, vec![0]);

    state.search.clear();
    state.refresh_filter();
    assert_eq!(state.filter_rows, vec![0, 1]);
}

#[test]
fn effect_bulk_level_applies_to_filtered_rows_only() {
    let mut state = list(Some(vec![
        skill_row(
            &["fire_heraldofash", "herald_of_fire"],
            "herald_of_ash",
            "HeraldOfAsh",
            "Herald of Ash",
            "herald of ash herald_of_ash heraldofash fire_heraldofash herald_of_fire",
        ),
        fireball_row(),
    ]));

    state.search = "herald".to_string();
    state.apply_level_to_filtered_rows(EffectLevel::Full);
    assert_eq!(
        state.overrides.get("fire_heraldofash"),
        Some(EffectLevel::Full)
    );
    assert_eq!(
        state.overrides.get("herald_of_fire"),
        Some(EffectLevel::Full)
    );
    assert_eq!(state.overrides.get("fireball"), None);
    assert_eq!(
        state.level_for_keys(&vec!["fire_heraldofash".to_string(), "fireball".to_string()]),
        None
    );
    assert_eq!(
        state.level_for_keys(&vec!["fire_heraldofash".to_string()]),
        Some(EffectLevel::Full)
    );
    assert_eq!(state.level_for_keys(&Vec::new()), None);

    state.apply_level_to_filtered_rows(EffectLevel::Reduced);
    assert!(state.overrides.entries.is_empty());
}

#[test]
fn kept_original_count_uses_skill_rows_when_catalog_is_loaded() {
    let mut state = list(Some(vec![
        skill_row(
            &["lightning_herald", "herald_of_thunder"],
            "herald_of_thunder",
            "HeraldOfThunder",
            "Herald of Thunder",
            "herald of thunder herald_of_thunder heraldofthunder lightning_herald herald_of_thunder",
        ),
        fireball_row(),
    ]));
    state.overrides.insert("lightning_herald", EffectLevel::Full);
    state.overrides.insert("herald_of_thunder", EffectLevel::Full);
    assert_eq!(state.kept_original_count(), 1);

    state.overrides.insert("fireball", EffectLevel::Full);
    assert_eq!(state.kept_original_count(), 2);

    // A mixed row (only one of the skill's folders still Full) keeps
    // rendering original visuals, so it stays counted.
    state.overrides.remove("herald_of_thunder");
    assert_eq!(state.kept_original_count(), 2);
}

#[test]
fn kept_original_count_falls_back_to_folders_without_catalog_rows() {
    let mut state = list(None);
    state.overrides.insert("lightning_herald", EffectLevel::Full);
    state.overrides.insert("herald_of_thunder", EffectLevel::Full);
    // No catalog and an empty catalog count the same way: per folder.
    assert_eq!(state.kept_original_count(), 2);
    state.rows = Some(Vec::new());
    assert_eq!(state.kept_original_count(), 2);
}

#[test]
fn kept_original_count_preserves_folder_fallbacks() {
    let mut state = list(None);
    state.overrides.insert("lightning_herald", EffectLevel::Full);
    state.overrides.insert("herald_of_thunder", EffectLevel::Full);
    assert_eq!(state.kept_original_count(), 2);

    state.rows = Some(vec![fireball_row()]);
    state.overrides.insert("fireball", EffectLevel::Full);
    assert_eq!(state.kept_original_count(), 3);
}

#[test]
fn effect_catalog_rows_keep_skill_first_grouping() {
    let rows = effect_skill_catalog_rows(vec![
        EffectSkillCatalogEntry {
            active_skill_id: "herald_of_ash".to_string(),
            display: "Herald of Ash".to_string(),
            action_type: "HeraldOfAsh".to_string(),
            folders: vec!["fire_heraldofash".to_string(), "herald_of_fire".to_string()],
        },
        EffectSkillCatalogEntry {
            active_skill_id: "fireball".to_string(),
            display: "Fireball".to_string(),
            action_type: "GreaterFireball".to_string(),
            folders: vec!["fireball".to_string()],
        },
    ]);

    assert_eq!(rows.len(), 2);
    let herald = rows
        .iter()
        .find(|row| row.display == "Herald of Ash")
        .unwrap();
    assert_eq!(
        herald.keys,
        vec!["fire_heraldofash".to_string(), "herald_of_fire".to_string()]
    );
    assert_eq!(herald.active_skill_id, "herald_of_ash");
    assert_eq!(herald.action_type, "HeraldOfAsh");
    assert!(herald.search_lower.contains("herald_of_ash"));
    assert!(herald.search_lower.contains("heraldofash"));
    assert!(herald.search_lower.contains("fire_heraldofash"));
    assert!(herald.search_lower.contains("herald_of_fire"));
}

#[test]
fn monsters_tab_hides_unnamed_rows_until_checkbox_enabled() {
    let wolf = "metadata/monsters/baron/phase2/baronphase2wolf";
    let mut fallback = monster_row("baronphase 2 wolf", &[wolf]);
    fallback.named = false;
    fallback.context = Some("Count Geonor / Geonor, the Putrid Wolf".to_string());
    let mut state = list(Some(vec![monster_row("Bog Hulk", &[HULK]), fallback]));
    state.overrides.insert(wolf, EffectLevel::Full);

    state.refresh_filter();
    assert_eq!(state.filter_rows, vec![0]);
    assert_eq!(state.overridden_unnamed_row_count(), 1);
    assert_eq!(state.unnamed_row_count(), 1);

    state.show_unnamed = true;
    state.refresh_filter();
    assert_eq!(state.filter_rows, vec![0, 1]);
}

#[test]
fn rows_are_loaded_once_for_each_install() {
    let a = Some("/install/A".to_string());
    let mut state = list(None);
    assert!(state.start_loading(&a));
    assert!(state.loading);
    assert!(!state.start_loading(&a));
    state.finish_loading(Err("no index".to_string()));
    assert_eq!(state.error.as_deref(), Some("no index"));
    // After a failure another try is made.
    assert!(state.start_loading(&a));
    assert!(state.error.is_none());
    state.finish_loading(Ok(vec![fireball_row()]));
    assert_eq!(state.rows.as_ref().unwrap().len(), 1);
    assert!(!state.start_loading(&a));
    assert!(state.start_loading(&Some("/install/B".to_string())));
    assert!(state.rows.is_none());
}

fn row(stat_id: &str, text: &str) -> CatalogRow {
    catalog_row(stat_id.to_string(), text.to_string())
}

#[test]
fn color_filter_matches_query_words_in_any_order_against_display_text() {
    let mut rows = vec![
        row(
            "map_ritual_omen_chance_+%",
            "[ContainsRitual|Ritual] Favours in Map have {0}% increased chance to be [Omen|Omens]",
        ),
        row("map_monsters_life_+%", "{0}% more Monster Life"),
    ];

    // Loose phrasing with markup-hidden words and different word forms.
    let found = filter_colors(&Vec::new(), &rows, "increase chance to be omen");
    assert_eq!(found.len(), 1);
    assert!(matches!(found[0], ColorRowRef::Catalog(0)));

    // Configured entries match on their display text too, not just id.
    let mods = vec![ColorModEntry {
        stat_id: "map_monsters_damage_+%".to_string(),
        color: [1, 2, 3],
        enabled: true,
    }];
    rows.push(row("map_monsters_damage_+%", "{0}% more Monster Damage"));
    rows.sort_by(|a, b| a.stat_id.cmp(&b.stat_id));
    let found = filter_colors(&mods, &rows, "more damage monster");
    assert!(found.iter().any(|found| matches!(found, ColorRowRef::Config(idx)
        if mods[*idx].stat_id == "map_monsters_damage_+%")));

    // PoE2-style regex: alternation, quoted phrases, and `!` exclusion.
    assert!(filter_colors(&mods, &rows, "omen|monster").len() >= 3);
    let found = filter_colors(&mods, &rows, "\"chance to be\" !monster");
    assert_eq!(found.len(), 1);
    assert!(matches!(found[0], ColorRowRef::Catalog(_)));

    // Empty query shows everything.
    let configured_in_catalog = rows
        .iter()
        .filter(|row| mods.iter().any(|e| e.stat_id == row.stat_id))
        .count();
    assert_eq!(
        filter_colors(&mods, &rows, "").len(),
        mods.len() + rows.len() - configured_in_catalog
    );
}

#[test]
fn shared_names_are_told_by_the_lower_case() {
    let lowers = vec!["wolf".to_string(), "bear".to_string(), "wolf".to_string()];
    assert!(is_shared_name(&lowers, 0));
    assert!(!is_shared_name(&lowers, 1));
    let entry = |display: &str, family: &str| MonsterEffectCatalogEntry {
        display: display.to_string(),
        monster_keys: vec!["k".to_string()],
        family: family.to_string(),
        search_aliases: Vec::new(),
    };
    let entries = vec![entry("A", "x"), entry("B", "y"), entry("C", "z")];
    let rows = monster_rows_given(entries, &lowers);
    let shown: Vec<&str> = rows.iter().map(|row| row.display.as_str()).collect();
    assert_eq!(shown, ["A (x)", "B", "C (z)"]);
    assert_eq!(rows[1].display_lower, "bear");
    assert_eq!(rows[1].search_lower, "bear y k ");
}

#[test]
fn color_rows_are_found_by_id_and_text() {
    let rows = vec![
        row("map_monsters_damage_+%", "{0}% more Monster Damage"),
        row("map_monsters_life_+%", "{0}% more Monster Life"),
        row(
            "map_ritual_omen_chance_+%",
            "Ritual Favours in Map have {0}% increased chance to be Omens",
        ),
    ];
    let mods = vec![ColorModEntry {
        stat_id: "map_monsters_damage_+%".to_string(),
        color: [1, 2, 3],
        enabled: true,
    }];
    let found = |search: &str| -> Vec<ColorRowRef> { filter_colors(&mods, &rows, search) };
    assert!(matches!(
        found("increase chance to be omen")[..],
        [ColorRowRef::Catalog(2)]
    ));
    // What has a color comes first, and once.
    assert!(matches!(
        found("more damage monster")[..],
        [ColorRowRef::Config(0)]
    ));
    assert_eq!(found("omen|monster").len(), 3);
    assert!(matches!(
        found("\"chance to be\" !monster")[..],
        [ColorRowRef::Catalog(2)]
    ));
    assert!(matches!(
        found("")[..],
        [
            ColorRowRef::Config(0),
            ColorRowRef::Catalog(1),
            ColorRowRef::Catalog(2)
        ]
    ));
    assert_eq!(
        catalog_text(&rows, "map_monsters_life_+%"),
        Some("{0}% more Monster Life")
    );
    assert_eq!(catalog_text(&rows, "none"), None);
    assert_eq!(enabled_count(&mods), 1);
}

#[test]
fn catalog_keeps_the_first_text_of_each_stat_in_order() {
    let entry = |stat_id: &str, text: &str| StatCatalogEntry {
        stat_id: stat_id.to_string(),
        text: text.to_string(),
    };
    let entries = vec![
        entry("map_b", "first b"),
        entry("map_a_long", "longer"),
        entry("map_b", "second b"),
        entry("map_a", "a"),
        entry("map_b", "third b"),
        entry("Map_z", "upper case first"),
    ];
    let catalog = merge_stat_catalog(&entries);
    let found: Vec<(&str, &str)> =
        catalog.iter().map(|e| (e.stat_id.as_str(), e.text.as_str())).collect();
    assert_eq!(
        found,
        vec![
            ("Map_z", "upper case first"),
            ("map_a", "a"),
            ("map_a_long", "longer"),
            ("map_b", "first b"),
        ]
    );
    assert!(merge_stat_catalog(&Vec::new()).is_empty());
}

#[test]
fn catalog_rows_hold_lower_case_copies() {
    let made = catalog_row("Map_Monsters".to_string(), "More LIFE".to_string());
    assert_eq!(made.stat_id, "Map_Monsters");
    assert_eq!(made.text, "More LIFE");
    assert_eq!(made.stat_id_lower, "map_monsters");
    assert_eq!(made.text_lower, "more life");
}
