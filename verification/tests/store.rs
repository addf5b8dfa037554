use tiny_poe2smoother::cache::{index_cache_bytes, parse_index_cache, CacheKey};
use tiny_poe2smoother::compression::{
    chunk_ranges, decompress_bundle, pack_uncompressed_bundle, parse_bundle_head,
};
use tiny_poe2smoother::ggpk::{
    ggpk_find_file, ggpk_find_pdir, ggpk_record_name, GgpkArchive, GgpkError,
};
use tiny_poe2smoother::ggpk_patch::{
    apply_ggpk_patch, ggpk_name_hash, prepare_ggpk_patch, restore_ggpk_backup, FileWrite,
};
use tiny_poe2smoother::index::{BundleFile, BundleIndex};
use tiny_poe2smoother::install::InstallLayout;
use tiny_poe2smoother::open::{OpenAction, OpenEvent, OpenFailure, OpenRun};
use tiny_poe2smoother::store::{
    after_cache_step, ensure_source_unchanged, group_by_bundle, is_legacy_cache_name, read_cache,
    same_source, spans_of, sweep_action, sweep_is_complete, sweep_is_due, write_cache,
    AfterCacheStep, BundleStore, CacheStep, OpenPhase, SweepAction, SweepEntry, SweepOutcome,
};

fn key(source: &str, size: u64, mtime: u128) -> CacheKey {
    CacheKey {
        source: source.to_string(),
        size,
        mtime,
    }
}

/// The cache of an index whose source does not change.
fn cache_of(index: &BundleIndex, now: &Option<CacheKey>) -> Vec<u8> {
    let cache = write_cache(index, now.as_ref().unwrap(), now).unwrap();
    cache.publish(now).unwrap()
}

#[test]
fn corrupt_index_cache_is_rejected_without_huge_allocations() {
    let key = key("src", 1, 2);
    // Truncated header and wrong magic.
    assert!(parse_index_cache(b"2SI2", &key).is_none());
    assert!(parse_index_cache(b"XXXXXXXXXXXXXXXX", &key).is_none());

    // Valid magic + matching key, then corrupt lengths.
    let mut header = Vec::new();
    header.extend_from_slice(b"2SI4");
    header.extend_from_slice(&(key.source.len() as u64).to_le_bytes());
    header.extend_from_slice(key.source.as_bytes());
    header.extend_from_slice(&key.size.to_le_bytes());
    header.extend_from_slice(&key.mtime.to_le_bytes());

    // Absurd raw_decompressed length: must be rejected, not allocated.
    let mut absurd_len = header.clone();
    absurd_len.extend_from_slice(&u64::MAX.to_le_bytes());
    assert!(parse_index_cache(&absurd_len, &key).is_none());

    // Absurd file count after empty sections.
    let mut absurd_count = header;
    absurd_count.extend_from_slice(&0u64.to_le_bytes()); // raw_decompressed len
    absurd_count.extend_from_slice(&0u64.to_le_bytes()); // bundle count
    absurd_count.extend_from_slice(&(u64::MAX / 4).to_le_bytes()); // file count
    assert!(parse_index_cache(&absurd_count, &key).is_none());
}

fn raw_index(bundle_names: &[&str]) -> Vec<u8> {
    let mut raw = Vec::new();
    raw.extend_from_slice(&(bundle_names.len() as u32).to_le_bytes());
    for bundle_name in bundle_names {
        raw.extend_from_slice(&(bundle_name.len() as u32).to_le_bytes());
        raw.extend_from_slice(bundle_name.as_bytes());
        raw.extend_from_slice(&0u32.to_le_bytes());
    }
    raw.extend_from_slice(&0u32.to_le_bytes()); // file count
    raw.extend_from_slice(&1u32.to_le_bytes()); // directory count
    raw.extend_from_slice(&0x07E47507B4A92E53u64.to_le_bytes());
    raw.extend_from_slice(&[0; 12]);
    raw.extend_from_slice(&pack_uncompressed_bundle(&[], &Vec::new()).unwrap());
    raw
}

fn packed_index(bundle_names: &[&str]) -> Vec<u8> {
    let raw = raw_index(bundle_names);
    pack_uncompressed_bundle(&raw, &vec![raw.clone()]).unwrap()
}

fn index_of(bundle_names: &[&str]) -> BundleIndex {
    BundleIndex::parse(raw_index(bundle_names)).unwrap()
}

fn opened(packed: &[u8]) -> BundleIndex {
    let head = parse_bundle_head(packed).unwrap();
    let chunks = chunk_ranges(&head, packed)
        .iter()
        .map(|(start, end)| packed[*start..*end].to_vec())
        .collect();
    BundleIndex::parse(decompress_bundle(packed, &chunks).unwrap()).unwrap()
}

#[test]
fn a_cache_gives_back_the_index() {
    let index = index_of(&["old", "new"]);
    let key = key("src", 7, 9);
    let data = index_cache_bytes(&index, &key);
    let again = parse_index_cache(&data, &key).unwrap();
    assert_eq!(again.raw_decompressed, index.raw_decompressed);
    assert!(again.has_bundle_prefix("new"));
    assert!(parse_index_cache(&data[..data.len() - 1], &key).is_none());
}

#[test]
fn changed_source_cannot_publish_a_stale_index_cache() {
    let before = key("game", 4, 1);
    let stale = index_of(&["old"]);
    // An update finishing after the index was read but before its cache was
    // serialized.
    let now = Some(key("game", 12, 1));
    assert!(!same_source(&Some(key("game", 4, 1)), &now));
    assert!(write_cache(&stale, &before, &now).is_none());
    assert!(write_cache(&stale, &before, &None).is_none());
    let put_together = || write_cache(&stale, &before, &Some(key("game", 4, 1))).unwrap();
    assert!(put_together().publish(&now).is_none());
    assert!(put_together().publish(&None).is_none());
    assert!(put_together().publish(&Some(key("game", 4, 1))).is_some());
    // Nothing was written, so nothing is read.
    assert!(read_cache(&now, None, &now).is_none());
}

#[test]
fn open_index_remaps_replaced_content_before_caching() {
    let first = Some(key("game", 10, 1));
    let old = opened(&packed_index(&["old"]));
    assert!(old.has_bundle_prefix("old"));
    let cached = cache_of(&old, &first);

    // The replaced archive has another key: the cache is not taken.
    let second = Some(key("game", 20, 2));
    assert!(read_cache(&second, Some(&cached), &second).is_none());
    assert!(ensure_source_unchanged(&second, &first, OpenPhase::Mapping).is_err());
    let rebuilt = opened(&packed_index(&["replacement"]));
    assert!(rebuilt.has_bundle_prefix("replacement"));
    assert!(!rebuilt.has_bundle_prefix("old"));

    let cached = cache_of(&rebuilt, &second);
    let again = read_cache(&second, Some(&cached), &second).unwrap();
    assert!(again.has_bundle_prefix("replacement"));
    assert!(!again.has_bundle_prefix("old"));
    // A change while the cache was read makes it worthless.
    assert!(read_cache(&second, Some(&cached), &first).is_none());
}

#[test]
fn a_change_is_reported_with_its_phase() {
    let a = Some(key("game", 1, 1));
    assert!(ensure_source_unchanged(&a, &Some(key("game", 1, 1)), OpenPhase::Loading).is_ok());
    assert!(ensure_source_unchanged(&None, &None, OpenPhase::Caching).is_ok());
    let e = ensure_source_unchanged(&a, &None, OpenPhase::Building).unwrap_err();
    assert_eq!(e.phase, OpenPhase::Building);
}

/// Hands the events to a run, and checks the step that comes before each.
fn open(layout: InstallLayout, steps: Vec<(OpenAction, OpenEvent)>) -> OpenRun {
    let mut run = OpenRun::new(layout);
    for (action, event) in steps {
        assert_eq!(run.action(), action);
        run.handle(event);
    }
    run
}

fn seen(size: u64) -> (OpenAction, OpenEvent) {
    let key = Some(key("game", size, 1));
    (OpenAction::ReadKey, OpenEvent::Key { key })
}

fn cache(usable: bool) -> (OpenAction, OpenEvent) {
    (OpenAction::ReadCache, OpenEvent::Cache { usable })
}

fn mapped(done: bool) -> (OpenAction, OpenEvent) {
    (OpenAction::MapArchive, OpenEvent::Mapped { done })
}

fn built(done: bool) -> (OpenAction, OpenEvent) {
    (OpenAction::BuildIndex, OpenEvent::Built { done })
}

const LOCK: (OpenAction, OpenEvent) = (OpenAction::TakeLock, OpenEvent::Locked);
const CACHED: (OpenAction, OpenEvent) = (OpenAction::WriteCache, OpenEvent::CacheWritten);
const NO_KEY: (OpenAction, OpenEvent) = (OpenAction::ReadKey, OpenEvent::Key { key: None });
const UNREADABLE: (OpenAction, OpenEvent) = (OpenAction::ReadKey, OpenEvent::KeyUnreadable);

#[test]
fn an_index_is_opened_from_the_cache_or_built() {
    let loose = |steps| open(InstallLayout::LooseBundles, steps).action();
    assert_eq!(
        loose(vec![seen(1), cache(true), seen(1)]),
        OpenAction::GiveCached
    );
    // Another built it meanwhile.
    assert_eq!(
        loose(vec![seen(1), cache(false), LOCK, seen(2), cache(true), seen(2)]),
        OpenAction::GiveCached
    );
    let miss = || vec![seen(1), cache(false), LOCK, seen(1), cache(false), built(true)];
    let mut steps = miss();
    steps.extend([seen(1), CACHED, seen(1)]);
    assert_eq!(loose(steps), OpenAction::GiveBuilt);
    // Without a key nothing is cached.
    assert_eq!(
        loose(vec![
            NO_KEY,
            cache(false),
            LOCK,
            NO_KEY,
            cache(false),
            built(true),
            NO_KEY,
            NO_KEY
        ]),
        OpenAction::GiveBuilt
    );
    // The archive is mapped before the cache is read, each time.
    let archive = open(
        InstallLayout::ContentGgpk,
        vec![
            seen(1),
            mapped(true),
            seen(1),
            cache(false),
            LOCK,
            seen(3),
            mapped(true),
            seen(3),
            cache(false),
            built(true),
            seen(3),
            CACHED,
            seen(3),
        ],
    );
    assert_eq!(archive.action(), OpenAction::GiveBuilt);
    assert!(same_source(&archive.key, &Some(key("game", 3, 1))));
}

#[test]
fn opening_stops_where_the_files_change_or_cannot_be_read() {
    let loose = |steps| open(InstallLayout::LooseBundles, steps).action();
    let changed = |phase| OpenAction::Fail(OpenFailure::Changed(phase));
    let archive = |steps| open(InstallLayout::ContentGgpk, steps).action();
    assert_eq!(
        archive(vec![seen(1), mapped(true), seen(2)]),
        changed(OpenPhase::Mapping)
    );
    assert_eq!(
        archive(vec![seen(1), mapped(false)]),
        OpenAction::Fail(OpenFailure::NotMapped)
    );
    assert_eq!(
        loose(vec![seen(1), cache(true), NO_KEY]),
        changed(OpenPhase::Loading)
    );
    let miss = || vec![seen(1), cache(false), LOCK, seen(1), cache(false)];
    let with = |more: Vec<(OpenAction, OpenEvent)>| {
        let mut steps = miss();
        steps.extend(more);
        loose(steps)
    };
    assert_eq!(
        with(vec![built(false)]),
        OpenAction::Fail(OpenFailure::NotBuilt)
    );
    assert_eq!(
        with(vec![built(true), seen(2)]),
        changed(OpenPhase::Building)
    );
    assert_eq!(
        with(vec![built(true), seen(1), CACHED, seen(2)]),
        changed(OpenPhase::Caching)
    );
    assert_eq!(loose(vec![UNREADABLE]), OpenAction::Fail(OpenFailure::NoKey));
    assert_eq!(
        with(vec![built(true), UNREADABLE]),
        OpenAction::Fail(OpenFailure::NoKey)
    );
    // What the run did not wait for changes nothing.
    let mut run = OpenRun::new(InstallLayout::LooseBundles);
    run.handle(OpenEvent::Built { done: true });
    run.handle(OpenEvent::Locked);
    assert_eq!(run.action(), OpenAction::ReadKey);
    assert!(!run.locked);
}

fn store(game: &str, normal: &str, layout: Option<InstallLayout>) -> BundleStore {
    BundleStore::new_with_cache_dir(game.to_string(), normal, layout, "/cache".to_string())
}

#[test]
fn aliases_share_cache_identity_for_both_install_layouts() {
    for layout in [InstallLayout::LooseBundles, InstallLayout::ContentGgpk] {
        let direct = store("/t/game", "/t/game", Some(layout));
        let aliased = store("/t/game-alias", "/t/game", Some(layout));
        assert_eq!(direct.layout, layout);
        assert_eq!(aliased.layout, layout);
        assert_eq!(direct.game_dir, "/t/game");
        assert_eq!(aliased.game_dir, "/t/game-alias");
        assert_eq!(direct.cache_path(), aliased.cache_path());
        assert_eq!(direct.cache_source, aliased.cache_source);
    }
}

#[test]
fn case_distinct_installs_have_distinct_cache_paths() {
    let loose = Some(InstallLayout::LooseBundles);
    assert_ne!(
        store("/t/Game", "/t/Game", loose).cache_path(),
        store("/t/game", "/t/game", loose).cache_path()
    );
}

#[test]
fn distinct_installs_have_distinct_cache_identities() {
    let loose = Some(InstallLayout::LooseBundles);
    let first = store("/t/install-a", "/t/install-a", loose);
    let second = store("/t/install-b", "/t/install-b", loose);
    assert_ne!(first.cache_source, second.cache_source);
    assert_ne!(first.cache_path(), second.cache_path());
}

#[test]
fn missing_game_dir_uses_deterministic_cache_identity_fallback() {
    let first = store("missing-game", "/t/missing-game", None);
    let second = store("missing-game", "/t/missing-game", None);
    assert_eq!(first.game_dir, "missing-game");
    assert_eq!(first.cache_source, "/t/missing-game/Bundles2/_.index.bin");
    assert_eq!(first.cache_source, second.cache_source);
    assert_eq!(first.cache_path(), second.cache_path());
    assert!(first.cache_path().starts_with("/cache/index-cache-v3-"));
    assert!(!is_legacy_cache_name(&first.cache_path()["/cache/".len()..]));
}

#[test]
fn cache_write_read_and_clear_agree_across_aliases() {
    for layout in [InstallLayout::LooseBundles, InstallLayout::ContentGgpk] {
        let direct = store("/t/game", "/t/game", Some(layout));
        let aliased = store("/t/game-alias", "/t/game", Some(layout));
        let mut index = index_of(&["test"]);
        index.paths = Some(vec!["Metadata/Test.dat".to_string()]);
        let now = || Some(key(&direct.cache_source, 5, 6));
        let data = cache_of(&index, &now());
        assert_eq!(direct.cache_path(), aliased.cache_path());

        let theirs = || Some(key(&aliased.cache_source, 5, 6));
        let cached = read_cache(&theirs(), Some(&data), &theirs()).unwrap();
        assert_eq!(cached.paths.unwrap(), vec!["Metadata/Test.dat".to_string()]);
        // Once the file is gone nothing is read.
        assert!(read_cache(&now(), None, &now()).is_none());
    }
}

fn named(name: &str, is_file: Option<bool>) -> SweepEntry {
    SweepEntry::Named {
        name: name.to_string(),
        is_file,
    }
}

#[test]
fn legacy_cache_migration_is_exact_and_idempotent() {
    let legacy = [
        "index-cache.bin",
        "index-cache-0123456789abcdef.bin",
        "index-cache-v2-0123456789abcdef.bin",
    ];
    let preserved = [
        "index-cache-v3-0123456789abcdef.bin",
        "index-cache-v2.migrated",
        "index-cache-v2-0123456789abcdef.tmp42",
        "index-cache-0123456789ABCDEf.bin",
        "index-cache-0123.bin",
        "unrelated.bin",
    ];
    let mut outcomes = Vec::new();
    for name in legacy {
        let action = sweep_action(&named(name, Some(true)));
        assert_eq!(action, SweepAction::Remove);
        outcomes.push(SweepOutcome {
            action,
            removed: true,
        });
    }
    for name in preserved {
        let action = sweep_action(&named(name, Some(true)));
        assert_eq!(action, SweepAction::Keep);
        outcomes.push(SweepOutcome {
            action,
            removed: false,
        });
    }
    // A folder with such a name stays.
    let action = sweep_action(&named("index-cache-fedcba9876543210.bin", Some(false)));
    assert_eq!(action, SweepAction::Keep);
    assert!(sweep_is_complete(&outcomes));
    // The marker of a complete sweep keeps another one from being made.
    assert!(sweep_is_due(false, true));
    assert!(!sweep_is_due(true, true));
    assert!(!sweep_is_due(false, false));
}

#[test]
fn failed_legacy_cache_removal_retries_without_marker() {
    let action = sweep_action(&named("index-cache-0123456789abcdef.bin", Some(true)));
    let outcome = |removed: bool| vec![SweepOutcome { action, removed }];
    assert!(!sweep_is_complete(&outcome(false)));
    assert!(sweep_is_complete(&outcome(true)));
    for entry in [
        SweepEntry::Unreadable,
        named("index-cache-0123456789abcdef.bin", None),
    ] {
        let action = sweep_action(&entry);
        assert_eq!(action, SweepAction::Retry);
        let outcomes = vec![SweepOutcome {
            action,
            removed: false,
        }];
        assert!(!sweep_is_complete(&outcomes));
    }
}

#[test]
fn failed_cache_write_removes_partial_temp_file() {
    assert_eq!(
        after_cache_step(CacheStep::WriteBeside, false),
        AfterCacheStep::RemoveBeside
    );
}

#[test]
fn failed_cache_rename_removes_temp_file() {
    assert_eq!(
        after_cache_step(CacheStep::PutInPlace, false),
        AfterCacheStep::RemoveBeside
    );
}

#[test]
fn successful_cache_write_leaves_final_file() {
    assert_eq!(
        after_cache_step(CacheStep::WriteBeside, true),
        AfterCacheStep::PutInPlace
    );
    assert_eq!(
        after_cache_step(CacheStep::PutInPlace, true),
        AfterCacheStep::Done
    );
}

#[test]
fn paths_of_a_store_depend_on_its_layout() {
    let loose = store("/g", "/g", None);
    assert_eq!(loose.index_display_path(), "/g/Bundles2/_.index.bin");
    assert_eq!(loose.bundle_display_path("A/b"), "/g/Bundles2/A/b.bundle.bin");
    assert_eq!(loose.cache_key_source(true), Some(false));
    assert_eq!(loose.cache_key_source(false), None);
    let packed = store("/g", "/g", Some(InstallLayout::ContentGgpk));
    assert_eq!(
        packed.index_display_path(),
        "/g/Content.ggpk::Bundles2/_.index.bin"
    );
    assert_eq!(
        packed.bundle_display_path("b"),
        "/g/Content.ggpk::Bundles2/b.bundle.bin"
    );
    assert_eq!(packed.cache_key_source(false), Some(true));
}

#[test]
fn files_are_read_bundle_by_bundle() {
    let file = |hash: u64, bundle_index: u32, offset: u32| BundleFile {
        hash,
        bundle_index,
        bundle_name: format!("b{bundle_index}"),
        offset,
        size: 4,
        record_pos: 0,
    };
    let files = vec![file(1, 7, 0), file(2, 3, 8), file(3, 7, 4)];
    let groups = group_by_bundle(&files);
    assert_eq!(groups.len(), 2);
    let of_seven = groups.iter().find(|g| g.bundle_index == 7).unwrap();
    assert_eq!(of_seven.files.len(), 2);
    assert_eq!(spans_of(&of_seven.files), [(0, 4), (4, 4)]);
}

fn utf16_nul_bytes(text: &str) -> Vec<u8> {
    text.encode_utf16()
        .chain(std::iter::once(0))
        .flat_map(u16::to_le_bytes)
        .collect()
}

fn pdir_record_size(name: &str, entries: usize) -> usize {
    4 + 4 + 4 + 4 + 32 + utf16_nul_bytes(name).len() + entries * 12
}

fn write_pdir_record(out: &mut Vec<u8>, name: &str, children: &[(&str, u64)]) {
    out.extend_from_slice(&(pdir_record_size(name, children.len()) as u32).to_le_bytes());
    out.extend_from_slice(b"PDIR");
    out.extend_from_slice(&((name.len() + 1) as u32).to_le_bytes());
    out.extend_from_slice(&(children.len() as u32).to_le_bytes());
    out.extend_from_slice(&[0; 32]);
    out.extend_from_slice(&utf16_nul_bytes(name));
    for (child_name, offset) in children {
        out.extend_from_slice(&ggpk_name_hash(child_name).to_le_bytes());
        out.extend_from_slice(&offset.to_le_bytes());
    }
}

fn file_record(name: &str, data: &[u8]) -> Vec<u8> {
    let name_bytes = utf16_nul_bytes(name);
    let mut out = Vec::new();
    let size = 4 + 4 + 4 + 32 + name_bytes.len() + data.len();
    out.extend_from_slice(&(size as u32).to_le_bytes());
    out.extend_from_slice(b"FILE");
    out.extend_from_slice(&((name.len() + 1) as u32).to_le_bytes());
    out.extend_from_slice(&[0; 32]);
    out.extend_from_slice(&name_bytes);
    out.extend_from_slice(data);
    out
}

fn test_ggpk(dir_name: &str, files: &[(&str, &[u8])]) -> Vec<u8> {
    let root_offset = 20u64;
    let dir_offset = root_offset + pdir_record_size("", 1) as u64;
    let mut next_offset = dir_offset + pdir_record_size(dir_name, files.len()) as u64;
    let mut children = Vec::new();
    let mut records = Vec::new();
    for (name, data) in files {
        let record = file_record(name, data);
        children.push((*name, next_offset));
        next_offset += record.len() as u64;
        records.push(record);
    }
    let mut out = Vec::new();
    out.extend_from_slice(&20u32.to_le_bytes());
    out.extend_from_slice(b"GGPK");
    out.extend_from_slice(&3u32.to_le_bytes());
    out.extend_from_slice(&root_offset.to_le_bytes());
    write_pdir_record(&mut out, "", &[(dir_name, dir_offset)]);
    write_pdir_record(&mut out, dir_name, &children);
    for record in records {
        out.extend_from_slice(&record);
    }
    out
}

fn read_file(archive: &[u8], path: &str) -> Option<Vec<u8>> {
    let ggpk = match GgpkArchive::from_bytes(archive) {
        Ok(ggpk) => ggpk,
        Err(_) => panic!("no archive"),
    };
    let span = ggpk_find_file(&ggpk, path).unwrap()?;
    Some(archive[span.begin..span.begin + span.len].to_vec())
}

#[test]
fn content_ggpk_reader_ignores_loose_overlay_index() {
    let archive = test_ggpk("Bundles2", &[("_.index.bin", b"ggpk-index".as_slice())]);
    assert_eq!(
        read_file(&archive, "Bundles2/_.index.bin").unwrap(),
        b"ggpk-index"
    );
    assert_eq!(read_file(&archive, "bundles2/_.index.bin"), None);
    assert_eq!(read_file(&archive, "Bundles2/other"), None);
    // With an archive the loose index is no source, whether it is there or not.
    let store = store("/g", "/g", Some(InstallLayout::ContentGgpk));
    assert_eq!(store.cache_key_source(true), Some(true));
}

fn write(archive: &mut Vec<u8>, w: &FileWrite) {
    let pos = w.pos as usize;
    let end = pos + w.bytes.len();
    if archive.len() < end {
        archive.resize(end, 0);
    }
    archive[pos..end].copy_from_slice(&w.bytes);
}

#[test]
fn ggpk_patch_appends_records_and_restores_pointer() {
    let original = test_ggpk(
        "Bundles2",
        &[
            ("_.index.bin", b"old-index".as_slice()),
            ("Base.bundle.bin", b"old-bundle".as_slice()),
        ],
    );
    let len = original.len() as u64;
    let ggpk = match GgpkArchive::from_bytes(&original) {
        Ok(ggpk) => ggpk,
        Err(_) => panic!("no archive"),
    };
    assert!(!ggpk.use_utf32());
    let plan =
        match prepare_ggpk_patch(&ggpk, len, "TinyPoe2Smoother_0", b"new-bundle", b"new-index") {
            Ok(plan) => plan,
            Err(_) => panic!("no plan"),
        };
    assert_eq!(plan.backup.appended_start, len);
    let (records, pointer) = match apply_ggpk_patch(&plan, len) {
        Ok(writes) => writes,
        Err(_) => panic!("refused"),
    };
    let mut archive = original.clone();
    write(&mut archive, &records);
    write(&mut archive, &pointer);
    assert_eq!(
        read_file(&archive, "Bundles2/_.index.bin").unwrap(),
        b"new-index"
    );
    assert_eq!(
        read_file(&archive, "Bundles2/TinyPoe2Smoother_0.bundle.bin").unwrap(),
        b"new-bundle"
    );
    assert_eq!(
        read_file(&archive, "Bundles2/Base.bundle.bin").unwrap(),
        b"old-bundle"
    );

    let (back, cut) = restore_ggpk_backup(plan.backup, archive.len() as u64);
    write(&mut archive, &back);
    archive.truncate(cut.unwrap() as usize);
    assert_eq!(archive, original);
    // Something appended behind the patch stays.
    let (_, cut) = restore_ggpk_backup(plan.backup, plan.backup.appended_end + 1);
    assert_eq!(cut, None);
    assert!(matches!(
        apply_ggpk_patch(&plan, len + 1),
        Err(GgpkError::ArchiveChanged)
    ));
}

#[test]
fn a_patched_archive_keeps_its_files_whatever_their_order() {
    let files: [(&str, &[u8]); 5] = [
        ("z.bundle.bin", b"z"),
        ("_.index.bin.old", b"old"),
        ("_.index.bin", b"index"),
        ("a", b"a"),
        ("_.index", b"short"),
    ];
    let mut archive = test_ggpk("Bundles2", &files);
    let ggpk = match GgpkArchive::from_bytes(&archive) {
        Ok(ggpk) => ggpk,
        Err(_) => panic!("no archive"),
    };
    let len = archive.len() as u64;
    let plan = match prepare_ggpk_patch(&ggpk, len, "b", b"bundle", b"new") {
        Ok(plan) => plan,
        Err(_) => panic!("no plan"),
    };
    let (records, pointer) = match apply_ggpk_patch(&plan, len) {
        Ok(writes) => writes,
        Err(_) => panic!("refused"),
    };
    write(&mut archive, &records);
    write(&mut archive, &pointer);
    for (name, data) in files {
        let found = read_file(&archive, &format!("Bundles2/{name}")).unwrap();
        if name == "_.index.bin" {
            assert_eq!(found, b"new");
        } else {
            assert_eq!(found, data, "{name}");
        }
    }
    assert_eq!(
        read_file(&archive, "Bundles2/b.bundle.bin").unwrap(),
        b"bundle"
    );
    assert_eq!(read_file(&archive, "Bundles2/c.bundle.bin"), None);
    assert_eq!(read_file(&archive, "Bundles2/_.index.bin/x"), None);
}

#[test]
fn archives_without_the_right_records_are_refused() {
    assert!(matches!(
        GgpkArchive::from_bytes(b"GGPK"),
        Err(GgpkError::TooSmall)
    ));
    let plan_of = |bytes: &[u8], name: &str| {
        let ggpk = match GgpkArchive::from_bytes(bytes) {
            Ok(ggpk) => ggpk,
            Err(e) => return Some(e),
        };
        prepare_ggpk_patch(&ggpk, bytes.len() as u64, name, b"", b"").err()
    };
    let good = test_ggpk("Bundles2", &[("_.index.bin", b"i".as_slice())]);
    assert_eq!(plan_of(&good, "flat"), None);
    assert_eq!(plan_of(&good, "not/flat"), Some(GgpkError::NameNotFlat));
    let no_index = test_ggpk("Bundles2", &[("other", b"i".as_slice())]);
    assert_eq!(plan_of(&no_index, "flat"), Some(GgpkError::NoIndex));
    let no_dir = test_ggpk("Other", &[("_.index.bin", b"i".as_slice())]);
    assert_eq!(plan_of(&no_dir, "flat"), Some(GgpkError::NoBundlesDir));

    let found = |bytes: &[u8]| {
        let ggpk = match GgpkArchive::from_bytes(bytes) {
            Ok(ggpk) => ggpk,
            Err(_) => panic!("no archive"),
        };
        ggpk_find_file(&ggpk, "Bundles2/_.index.bin")
    };
    assert!(found(&good).unwrap().is_some());
    assert_eq!(found(&good[..40]), Err(GgpkError::Truncated));
    let mut tag = good.clone();
    tag[24..28].copy_from_slice(b"WHAT");
    assert_eq!(found(&tag), Err(GgpkError::UnsupportedRecord));
    let mut far = good.clone();
    far[12..20].copy_from_slice(&u64::MAX.to_le_bytes());
    assert_eq!(found(&far), Err(GgpkError::OutsideArchive));
    // The folder leads back to the root.
    let mut cycle = good.clone();
    let entry = 20 + pdir_record_size("", 1) - 8;
    cycle[entry..entry + 8].copy_from_slice(&20u64.to_le_bytes());
    assert_eq!(found(&cycle), Err(GgpkError::RecordCycle));

    let ggpk = match GgpkArchive::from_bytes(&good) {
        Ok(ggpk) => ggpk,
        Err(_) => panic!("no archive"),
    };
    assert!(matches!(ggpk_find_pdir(&ggpk, "Bundles2"), Ok(Some(_))));
    let dir = 20 + pdir_record_size("", 1) as u64;
    let name: String = ggpk_record_name(&ggpk, dir).unwrap().into_iter().collect();
    assert_eq!(name, "Bundles2");
    assert_eq!(ggpk_record_name(&ggpk, 0), Err(GgpkError::NotNamed));
}
