use tiny_poe2smoother::backup::{
    ggpk_backup_meta, is_ggpk_meta_path, BackupEntry, BackupError, BackupStore, GgpkBackupMeta,
    RestoreStep,
};

fn store() -> BackupStore {
    BackupStore::for_path("/data/poe2.bak".to_string())
}

fn entry(rel_path: &str, bytes: &[u8]) -> BackupEntry {
    BackupEntry {
        rel_path: rel_path.to_string(),
        bytes: bytes.to_vec(),
    }
}

/// What the steps of a restore do, one line each.
fn steps(store: &BackupStore, overlay: bool) -> Vec<String> {
    store
        .restore(&store.entries().unwrap(), overlay)
        .steps
        .iter()
        .map(|step| match step {
            RestoreStep::WriteFile { rel_path, bytes } => {
                format!("write {rel_path} {}", String::from_utf8_lossy(bytes))
            }
            RestoreStep::RemoveFile { rel_path } => format!("remove {rel_path}"),
            RestoreStep::RemoveDir { rel_path } => format!("remove all {rel_path}"),
            RestoreStep::RemoveBackup => "remove backup".to_string(),
        })
        .collect()
}

#[test]
fn backup_round_trip() {
    let mut store = store();
    store
        .ensure_original_bytes("game", &vec![entry("Bundles2/_.index.bin", b"index")])
        .unwrap();
    let entries = store.entries().unwrap();
    assert_eq!(store.restore(&entries, false).restored, 1);
    // The folder of another tool is left alone.
    assert_eq!(
        steps(&store, false),
        [
            "write Bundles2/_.index.bin index",
            "remove all Bundles2/TinyPoe2Smoother",
            "remove backup"
        ]
    );
}

#[test]
fn truncated_trailing_entry_keeps_intact_entries_restorable() {
    let mut store = store();
    store
        .ensure_original_bytes("game", &vec![entry("Bundles2/_.index.bin", b"original")])
        .unwrap();

    // Simulate a crash mid-append: a partial second entry at the tail.
    let archive = store.archive.as_mut().unwrap();
    archive.extend_from_slice(&64u32.to_le_bytes()); // path_len
    archive.extend_from_slice(b"Bundles2/partial"); // only 16 of 64 bytes

    let entries = store.entries().unwrap();
    assert_eq!(entries.len(), 1);
    assert_eq!(entries[0].rel_path, "Bundles2/_.index.bin");
    assert_eq!(store.restore(&entries, false).restored, 1);
    assert_eq!(steps(&store, false)[0], "write Bundles2/_.index.bin original");
}

#[test]
fn absurd_data_length_is_rejected_without_allocating() {
    let mut store = store();
    store
        .ensure_original_bytes("game", &vec![entry("Bundles2/_.index.bin", b"original")])
        .unwrap();

    // A corrupt entry claiming u64::MAX data bytes must not be trusted.
    let archive = store.archive.as_mut().unwrap();
    archive.extend_from_slice(&3u32.to_le_bytes());
    archive.extend_from_slice(b"bad");
    archive.extend_from_slice(&u64::MAX.to_le_bytes());
    archive.extend_from_slice(b"short");

    let entries = store.entries().unwrap();
    assert_eq!(entries.len(), 1);
    assert_eq!(entries[0].rel_path, "Bundles2/_.index.bin");
}

#[test]
fn remove_backup_ignores_missing_file() {
    let mut store = store();
    store.remove();
    store.archive = Some(b"backup".to_vec());
    assert!(store.has_backup());
    store.remove();
    assert!(!store.has_backup());
}

#[test]
fn standalone_overlay_restore_removes_index_overlay() {
    let mut store = store();
    store
        .ensure_original_bytes("game", &vec![entry("Bundles2/_.index.bin", b"original")])
        .unwrap();
    let entries = store.entries().unwrap();
    assert_eq!(store.restore(&entries, true).restored, 1);
    assert_eq!(
        steps(&store, true),
        [
            "remove Bundles2/_.index.bin",
            "remove all Bundles2/TinyPoe2Smoother",
            "remove backup"
        ]
    );
}

#[test]
fn ggpk_backup_meta_round_trips() {
    let mut store = store();
    let meta = GgpkBackupMeta {
        bundles2_offset_pos: 11,
        original_bundles2_offset: 22,
        appended_start: 33,
        appended_end: 44,
    };

    store.ensure_ggpk_backup_meta("game", meta).unwrap();

    let entries = store.entries().unwrap();
    assert_eq!(ggpk_backup_meta(&entries).unwrap(), Some(meta));
    // The meta entry is bookkeeping, not a restored game file.
    assert_eq!(store.restore(&entries, false).restored, 0);
    assert_eq!(
        steps(&store, false),
        ["remove all Bundles2/TinyPoe2Smoother", "remove backup"]
    );
    assert!(is_ggpk_meta_path(&entries[0].rel_path));
    assert!(!is_ggpk_meta_path("Bundles2/_.index.bin"));
}

#[test]
fn originals_are_kept_once() {
    let mut store = store();
    store
        .ensure_original_bytes("game", &vec![entry("a", b"first"), entry("a", b"again")])
        .unwrap();
    store
        .ensure_original_bytes("game", &vec![entry("a", b"patched"), entry("b", b"")])
        .unwrap();
    let entries = store.entries().unwrap();
    assert_eq!(entries.len(), 2);
    assert_eq!(entries[0].bytes, b"first");
    assert_eq!(entries[1].rel_path, "b");
    assert!(entries[1].bytes.is_empty());
}

#[test]
fn broken_archives_are_refused() {
    let mut store = store();
    assert_eq!(store.entries().unwrap().len(), 0);
    let mut fails = |bytes: Vec<u8>| {
        store.archive = Some(bytes);
        match store.entries() {
            Ok(_) => panic!("read"),
            Err(e) => e,
        }
    };
    assert_eq!(fails(b"2P".to_vec()), BackupError::Truncated);
    assert_eq!(fails(vec![0; 12]), BackupError::NotABackup);

    let mut fresh = BackupStore::for_path(String::new());
    fresh
        .ensure_original_bytes("g", &vec![entry("x", b"1")])
        .unwrap();
    let good = fresh.archive.unwrap();
    let mut version = good.clone();
    version[4] = 9;
    assert_eq!(fails(version), BackupError::UnsupportedVersion(9));
    let mut path = good.clone();
    let last = path.len() - 10;
    assert_eq!(path[last], b'x');
    path[last] = 0xff;
    assert_eq!(fails(path), BackupError::PathNotUtf8);
    let meta = |bytes: &[u8]| {
        ggpk_backup_meta(&vec![entry("__tiny_poe2smoother/ggpk-meta-v1", bytes)])
    };
    assert_eq!(meta(b"no"), Err(BackupError::Truncated));
    assert_eq!(meta(b"none"), Err(BackupError::InvalidMeta));
    assert_eq!(meta(b"2PGM"), Err(BackupError::Truncated));
}

#[test]
fn the_backup_is_in_the_data_folder() {
    let store = match BackupStore::from_default_location(Some("/data"), None) {
        Ok(store) => store,
        Err(_) => panic!("no store"),
    };
    assert_eq!(store.path(), "/data/tiny-poe2smoother/poe2.bak");
    assert!(matches!(
        BackupStore::from_default_location(None, None),
        Err(BackupError::NoDataDir)
    ));
}

#[test]
fn a_path_written_otherwise_is_the_same_entry() {
    let mut store = store();
    store
        .ensure_original_bytes(
            "game",
            &vec![
                entry("Bundles2/_.index.bin", b"first"),
                entry("Bundles2//_.index.bin", b"again"),
            ],
        )
        .unwrap();
    assert_eq!(store.entries().unwrap().len(), 1);
    assert!(is_ggpk_meta_path("__tiny_poe2smoother//ggpk-meta-v1"));
    assert!(!is_ggpk_meta_path("/__tiny_poe2smoother/ggpk-meta-v1"));
}
