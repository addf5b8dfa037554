use tiny_poe2smoother::app::{AppStatus, ApplyBlocked, ApplyReport, PatchState};
use tiny_poe2smoother::apply::{
    write_target, ApplyAction, ApplyEvent, ApplyFailure, ApplyPlaces, ApplyRun,
};
use tiny_poe2smoother::backup::{
    encode_ggpk_meta, BackupEntry, BackupError, BackupStore, GgpkBackupMeta, RestoreStep,
};
use tiny_poe2smoother::install::InstallLayout;
use tiny_poe2smoother::labels::restored_message;
use tiny_poe2smoother::places::{
    mount_roots, standalone_candidates, standalone_program_dirs, steam_candidates, MountRoot,
    ProgramDir,
};
use tiny_poe2smoother::replacements::{ArchiveStep, ArchiveWrite};
use tiny_poe2smoother::restore::{
    find_backup, overlay_steps, restore_report, BackupFound, RestoreAction, RestoreEvent,
    RestoreFailure, RestoreOutcome, RestorePlaces, RestoreReport, RestoreRun,
};
use tiny_poe2smoother::tasks::{MessageKind, TaskAction, TaskEvent, TaskPanel};

const META_PATH: &str = "__tiny_poe2smoother/ggpk-meta-v1";

/// The events of an apply that goes through, up to the state of the index.
fn opened(layout: InstallLayout, patched: bool, has_backup: bool) -> Vec<ApplyEvent> {
    vec![
        ApplyEvent::Processes {
            game_running: false,
        },
        ApplyEvent::Folder {
            layout: Some(layout),
        },
        ApplyEvent::Index { there: true },
        ApplyEvent::Opened {
            patched: Some(patched),
            has_backup,
        },
    ]
}

fn apply(events: &[ApplyEvent]) -> (ApplyRun, ApplyAction) {
    let mut run = ApplyRun::new();
    let mut action = run.action();
    for event in events {
        action = run.handle(*event);
    }
    (run, action)
}

#[test]
fn a_loose_game_is_patched_after_its_index_is_backed_up() {
    let mut events = opened(InstallLayout::LooseBundles, false, true);
    assert_eq!(apply(&[]).1, ApplyAction::LookForGame);
    assert_eq!(apply(&events[..1]).1, ApplyAction::FindFolder);
    assert_eq!(apply(&events[..2]).1, ApplyAction::LookForIndex);
    assert_eq!(apply(&events[..3]).1, ApplyAction::OpenIndex);
    let (run, action) = apply(&events);
    assert_eq!(action, ApplyAction::ComputePatchSet);
    assert_eq!(run.patch_state, PatchState::StaleBackup);
    events.push(ApplyEvent::PatchSet { changes: Some(2) });
    assert_eq!(apply(&events).1, ApplyAction::LookForBundle(0));
    events.push(ApplyEvent::Bundle { there: true });
    assert_eq!(apply(&events).1, ApplyAction::LookForBundle(1));
    events.push(ApplyEvent::Bundle { there: true });
    assert_eq!(apply(&events).1, ApplyAction::RemoveStaleBackup);
    events.push(ApplyEvent::StaleBackup { removed: true });
    assert_eq!(apply(&events).1, ApplyAction::BackUpIndex);
    // What is not waited for changes nothing.
    events.push(ApplyEvent::Written { done: true });
    assert_eq!(apply(&events).1, ApplyAction::BackUpIndex);
    events.push(ApplyEvent::Backup { made: true });
    assert_eq!(apply(&events).1, ApplyAction::Write);
    events.push(ApplyEvent::Written { done: true });
    assert_eq!(apply(&events).1, ApplyAction::Report);
}

#[test]
fn the_standalone_archive_is_written_after_its_undo_entry() {
    let mut events = opened(InstallLayout::ContentGgpk, false, false);
    events.push(ApplyEvent::PatchSet { changes: Some(1) });
    events.push(ApplyEvent::Bundle { there: true });
    assert_eq!(apply(&events).1, ApplyAction::PutUndoEntry);
    // Neither a write nor a backup of the index is waited for.
    events.push(ApplyEvent::Written { done: true });
    events.push(ApplyEvent::Backup { made: true });
    assert_eq!(apply(&events).1, ApplyAction::PutUndoEntry);
    let mut failed = events.clone();
    failed.push(ApplyEvent::UndoEntry { kept: false });
    assert_eq!(apply(&failed).1, ApplyAction::Fail(ApplyFailure::NotWritten));
    events.push(ApplyEvent::UndoEntry { kept: true });
    assert_eq!(apply(&events).1, ApplyAction::Write);
    events.push(ApplyEvent::Written { done: true });
    assert_eq!(apply(&events).1, ApplyAction::Report);
    // A backup of an earlier version is removed first.
    let mut stale = opened(InstallLayout::ContentGgpk, false, true);
    stale.push(ApplyEvent::PatchSet { changes: Some(1) });
    stale.push(ApplyEvent::Bundle { there: true });
    assert_eq!(apply(&stale).1, ApplyAction::RemoveStaleBackup);
    stale.push(ApplyEvent::StaleBackup { removed: true });
    assert_eq!(apply(&stale).1, ApplyAction::PutUndoEntry);
}

#[test]
fn the_archive_is_not_touched_without_a_backup() {
    let steps = |has_backup: bool, went: &[bool]| {
        let mut write = ArchiveWrite::new(has_backup);
        let mut steps = vec![write.step];
        for went in went {
            steps.push(write.handle(*went));
        }
        steps
    };
    assert_eq!(
        steps(true, &[true; 6]),
        [
            ArchiveStep::Plan,
            ArchiveStep::PutUndoEntry,
            ArchiveStep::WriteRecords,
            ArchiveStep::WritePointer,
            ArchiveStep::RemoveOverlay,
            ArchiveStep::Done,
            ArchiveStep::Done
        ]
    );
    assert_eq!(
        steps(false, &[true, true, true]),
        [
            ArchiveStep::Plan,
            ArchiveStep::Refuse,
            ArchiveStep::Refuse,
            ArchiveStep::Refuse
        ]
    );
    assert_eq!(steps(false, &[false])[1], ArchiveStep::Fail);
    for n in 0..5 {
        let mut went = vec![true; n];
        went.extend([false, true]);
        assert_eq!(steps(true, &went)[n + 1..], [ArchiveStep::Fail; 2]);
    }
}

#[test]
fn applying_stops_at_the_first_failure() {
    let fails = |events: &[ApplyEvent]| match apply(events).1 {
        ApplyAction::Fail(failure) => failure,
        action => panic!("{action:?}"),
    };
    let loose = InstallLayout::LooseBundles;
    let clean = opened(loose, false, false);
    let with = |n: usize, more: &[ApplyEvent]| {
        let mut events = clean[..n].to_vec();
        events.extend_from_slice(more);
        fails(&events)
    };
    let running = ApplyEvent::Processes { game_running: true };
    assert_eq!(with(0, &[running]), ApplyFailure::GameRunning);
    assert_eq!(
        with(1, &[ApplyEvent::Folder { layout: None }]),
        ApplyFailure::NoGame
    );
    assert_eq!(
        with(2, &[ApplyEvent::Index { there: false }]),
        ApplyFailure::IndexMissing
    );
    let unreadable = ApplyEvent::Opened {
        patched: None,
        has_backup: true,
    };
    assert_eq!(with(3, &[unreadable]), ApplyFailure::IndexUnreadable);
    assert_eq!(
        fails(&opened(loose, true, true)),
        ApplyFailure::Blocked(ApplyBlocked::AlreadyPatched)
    );
    assert_eq!(
        fails(&opened(loose, true, false)),
        ApplyFailure::Blocked(ApplyBlocked::PatchedMissingBackup)
    );
    let set = |changes: Option<usize>| ApplyEvent::PatchSet { changes };
    assert_eq!(with(4, &[set(None)]), ApplyFailure::NoPatchSet);
    assert_eq!(with(4, &[set(Some(0))]), ApplyFailure::NoChanges);
    let there = |there: bool| ApplyEvent::Bundle { there };
    assert_eq!(
        with(4, &[set(Some(3)), there(true), there(false), there(false)]),
        ApplyFailure::BundleMissing(1)
    );
    let backup = ApplyEvent::Backup { made: false };
    let done = [set(Some(1)), there(true)];
    assert_eq!(with(4, &[done[0], done[1], backup]), ApplyFailure::NoBackup);
    let mut stale = opened(loose, false, true);
    stale.extend_from_slice(&done);
    stale.push(ApplyEvent::StaleBackup { removed: false });
    assert_eq!(fails(&stale), ApplyFailure::StaleBackupStays);
    let made = ApplyEvent::Backup { made: true };
    let written = ApplyEvent::Written { done: false };
    assert_eq!(
        with(4, &[done[0], done[1], made, written]),
        ApplyFailure::NotWritten
    );
}

#[test]
fn failures_of_applying_have_their_words() {
    let places = ApplyPlaces {
        index: "I".to_string(),
        backup: "B".to_string(),
        target: write_target(InstallLayout::LooseBundles, "I", "/g/Bundles2"),
        change: "c.ot".to_string(),
        bundle: "b".to_string(),
        cause: "why".to_string(),
    };
    let says = |failure: ApplyFailure| failure.message(&places);
    assert!(says(ApplyFailure::GameRunning).contains("appears to be running"));
    assert_eq!(says(ApplyFailure::NoGame), "why");
    assert_eq!(
        says(ApplyFailure::IndexMissing),
        "index file not found at I;\nverify game install or choose the game folder with Browse"
    );
    assert_eq!(
        says(ApplyFailure::IndexUnreadable),
        "failed to read/decode I;\n  cause: why\nverify game files with Steam or the standalone launcher"
    );
    assert!(says(ApplyFailure::Blocked(ApplyBlocked::AlreadyPatched)).ends_with("Backup: B"));
    assert_eq!(says(ApplyFailure::NoPatchSet), "why");
    assert!(says(ApplyFailure::NoChanges).starts_with("selected patches produced no changes;\n"));
    assert_eq!(
        says(ApplyFailure::BundleMissing(0)),
        "bundle file required by 'c.ot' not found: b;\nverify game files with Steam or the standalone launcher"
    );
    assert_eq!(
        says(ApplyFailure::StaleBackupStays),
        "failed to remove obsolete backup at B"
    );
    assert_eq!(
        says(ApplyFailure::NoBackup),
        "failed to create backup at B;\n  check disk space and permissions"
    );
    assert_eq!(
        says(ApplyFailure::NotWritten),
        "failed to write generated bundle to /g/Bundles2/TinyPoe2Smoother;\n  restore first if partially applied"
    );
    assert_eq!(write_target(InstallLayout::ContentGgpk, "I", "x"), "I");
}

fn entry(path: &str, bytes: &[u8]) -> BackupEntry {
    BackupEntry {
        rel_path: path.to_string(),
        bytes: bytes.to_vec(),
    }
}

fn backup_of(entries: Vec<BackupEntry>) -> BackupStore {
    let mut store = BackupStore::for_path("poe2.bak".to_string());
    store.ensure_original_bytes("game", &entries).unwrap();
    store
}

fn restore(backup: &BackupStore, more: &[RestoreEvent]) -> RestoreAction {
    let mut run = RestoreRun::new();
    assert_eq!(run.action(), RestoreAction::LookForGame);
    let mut action = run.handle(RestoreEvent::Processes {
        game_running: false,
    });
    assert_eq!(action, RestoreAction::FindFolder);
    action = run.handle(RestoreEvent::Folder { found: true });
    assert_eq!(action, RestoreAction::ReadBackup);
    action = run.handle(RestoreEvent::Backup(find_backup(backup)));
    for event in more {
        action = run.handle(*event);
    }
    action
}

fn patched(patched: bool) -> RestoreEvent {
    RestoreEvent::Opened {
        patched: Some(patched),
    }
}

fn layout(layout: InstallLayout) -> RestoreEvent {
    RestoreEvent::Layout {
        layout: Some(layout),
    }
}

#[test]
fn restore_removes_obsolete_backup_when_index_is_clean() {
    let mut backup = backup_of(vec![entry("Bundles2/_.index.bin", b"original")]);
    assert_eq!(
        restore(&backup, &[patched(false)]),
        RestoreAction::RemoveStaleBackup
    );
    backup.remove();
    let removed = RestoreEvent::StaleBackup { removed: true };
    let backup_before = backup_of(vec![entry("Bundles2/_.index.bin", b"original")]);
    let outcome = match restore(&backup_before, &[patched(false), removed]) {
        RestoreAction::Report(outcome) => outcome,
        action => panic!("{action:?}"),
    };
    let report = restore_report("game".to_string(), outcome);

    assert_eq!(report.restored_files, 0);
    assert!(report.backup_removed);
    assert!(!backup.has_backup());
    assert_eq!(restored_message(&report), "Removed obsolete backup.");
}

#[test]
fn a_patched_loose_game_gets_its_files_back() {
    let backup = backup_of(vec![entry("Bundles2/_.index.bin", b"index")]);
    let loose = layout(InstallLayout::LooseBundles);
    assert_eq!(restore(&backup, &[]), RestoreAction::OpenIndex);
    assert_eq!(
        restore(&backup, &[patched(true)]),
        RestoreAction::DetectLayout
    );
    assert_eq!(
        restore(&backup, &[patched(true), loose]),
        RestoreAction::RestoreFiles { overlay: false }
    );
    let files = RestoreEvent::Files { restored: Some(2) };
    let outcome = RestoreOutcome {
        found_backup: true,
        restored_files: 2,
        backup_removed: true,
    };
    assert_eq!(
        restore(&backup, &[patched(true), loose, files]),
        RestoreAction::Report(outcome)
    );
    let report = restore_report("game".to_string(), outcome);
    assert_eq!(restored_message(&report), "Restored 2 file(s).");
}

#[test]
fn without_a_backup_nothing_is_restored() {
    let backup = BackupStore::for_path("poe2.bak".to_string());
    assert_eq!(find_backup(&backup), BackupFound::Missing);
    let outcome = match restore(&backup, &[]) {
        RestoreAction::Report(outcome) => outcome,
        action => panic!("{action:?}"),
    };
    assert!(!outcome.found_backup);
    let report = restore_report("game".to_string(), outcome);
    assert_eq!(report.restored_files, 0);
    assert_eq!(restored_message(&report), "No backup found.");
}

#[test]
fn the_standalone_archive_is_restored_before_its_files() {
    let meta = GgpkBackupMeta {
        bundles2_offset_pos: 1,
        original_bundles2_offset: 2,
        appended_start: 3,
        appended_end: 4,
    };
    let ggpk = layout(InstallLayout::ContentGgpk);
    let good = backup_of(vec![entry(META_PATH, &encode_ggpk_meta(meta))]);
    let archive = |restored: bool| RestoreEvent::Archive { restored };
    let overlay = |removed: bool| RestoreEvent::Overlay { removed };
    assert_eq!(
        restore(&good, &[patched(true), ggpk]),
        RestoreAction::RestoreArchive(meta)
    );
    assert_eq!(
        restore(&good, &[patched(true), ggpk, archive(true)]),
        RestoreAction::RemoveOverlay
    );
    assert_eq!(
        restore(&good, &[patched(true), ggpk, archive(false)]),
        RestoreAction::Fail(RestoreFailure::ArchiveNotRestored)
    );
    assert_eq!(
        restore(&good, &[patched(true), ggpk, archive(true), overlay(true)]),
        RestoreAction::RestoreFiles { overlay: true }
    );
    assert_eq!(
        restore(&good, &[patched(true), ggpk, archive(true), overlay(false)]),
        RestoreAction::Fail(RestoreFailure::OverlayStays)
    );
    // An older backup knows nothing of the archive.
    let loose = backup_of(vec![entry("Bundles2/_.index.bin", b"index")]);
    assert_eq!(
        restore(&loose, &[patched(true), ggpk]),
        RestoreAction::RestoreFiles { overlay: true }
    );
    let bad = backup_of(vec![entry(META_PATH, b"xxxxxxxx")]);
    assert_eq!(
        restore(&bad, &[patched(true), ggpk]),
        RestoreAction::Fail(RestoreFailure::CorruptBackup(BackupError::InvalidMeta))
    );
    let steps = overlay_steps();
    assert!(matches!(
        &steps[0],
        RestoreStep::RemoveFile { rel_path } if rel_path == "Bundles2/_.index.bin"
    ));
    assert!(matches!(
        &steps[1],
        RestoreStep::RemoveDir { rel_path } if rel_path == "Bundles2/TinyPoe2Smoother"
    ));
}

#[test]
fn failures_of_a_restore_have_their_words() {
    let mut run = RestoreRun::new();
    assert_eq!(
        run.handle(RestoreEvent::Processes { game_running: true }),
        RestoreAction::Fail(RestoreFailure::GameRunning)
    );
    let loose = backup_of(vec![entry("Bundles2/_.index.bin", b"index")]);
    let fails = |backup: &BackupStore, events: &[RestoreEvent]| match restore(backup, events) {
        RestoreAction::Fail(failure) => failure,
        action => panic!("{action:?}"),
    };
    assert_eq!(
        fails(&backup_of(Vec::new()), &[]),
        RestoreFailure::EmptyBackup
    );
    let mut broken = BackupStore::for_path(String::new());
    broken.archive = Some(vec![0; 8]);
    assert_eq!(
        fails(&broken, &[]),
        RestoreFailure::BackupUnreadable(BackupError::NotABackup)
    );
    assert_eq!(
        fails(&loose, &[RestoreEvent::Opened { patched: None }]),
        RestoreFailure::IndexUnreadable
    );
    assert_eq!(
        fails(&loose, &[patched(false), RestoreEvent::StaleBackup { removed: false }]),
        RestoreFailure::StaleBackupStays
    );
    assert_eq!(
        fails(&loose, &[patched(true), RestoreEvent::Layout { layout: None }]),
        RestoreFailure::NoLayout
    );
    let not_restored = RestoreEvent::Files { restored: None };
    assert_eq!(
        fails(
            &loose,
            &[patched(true), layout(InstallLayout::LooseBundles), not_restored]
        ),
        RestoreFailure::FilesNotRestored
    );
    let places = RestorePlaces {
        index: "I".to_string(),
        backup: "B".to_string(),
        cause: "why".to_string(),
    };
    let says = |failure: RestoreFailure| failure.message(&places);
    assert!(says(RestoreFailure::GameRunning).contains("appears to be running"));
    assert_eq!(says(RestoreFailure::NoGame), "why");
    assert_eq!(
        says(RestoreFailure::EmptyBackup),
        "backup exists but is empty at B;\n  check file integrity"
    );
    assert_eq!(
        says(RestoreFailure::IndexUnreadable),
        "failed to read current index before restore: I"
    );
    assert_eq!(
        says(RestoreFailure::StaleBackupStays),
        "failed to remove obsolete backup at B"
    );
    assert_eq!(
        says(RestoreFailure::ArchiveNotRestored),
        "failed to restore I;\n  backup may be corrupt"
    );
    assert_eq!(
        says(RestoreFailure::FilesNotRestored),
        "restore from B failed;\n  backup may be corrupt"
    );
}

#[test]
fn the_game_is_looked_for_in_the_usual_places() {
    assert_eq!(
        steam_candidates(Some("/home/me"), &vec!["C:".to_string()]),
        [
            "/home/me/.steam/steam",
            "/home/me/.local/share/Steam",
            "/home/me/.var/app/com.valvesoftware.Steam/.local/share/Steam",
            "C:/Steam"
        ]
    );
    assert!(steam_candidates(None, &Vec::new()).is_empty());
    assert_eq!(mount_roots(Some("me")), ["/run/media/me", "/media/me", "/mnt"]);
    assert_eq!(mount_roots(None), ["/mnt"]);
    let mounts = vec![MountRoot {
        path: "/mnt".to_string(),
        children: vec!["/mnt/c".to_string()],
    }];
    assert_eq!(
        standalone_program_dirs(Some("/wine"), Some("/home/me"), &mounts),
        [
            "/wine/drive_c/Program Files (x86)",
            "/wine/drive_c/Program Files",
            "/home/me/.wine/drive_c/Program Files (x86)",
            "/home/me/.wine/drive_c/Program Files",
            "/mnt/Program Files (x86)",
            "/mnt/Program Files",
            "/mnt/c/Program Files (x86)",
            "/mnt/c/Program Files"
        ]
    );
    let dir = || ProgramDir {
        path: "/p".to_string(),
        children: Vec::new(),
    };
    // A folder that comes twice is tried once.
    assert_eq!(
        standalone_candidates(&vec![dir(), dir()]),
        [
            "/p/Grinding Gear Games/Path of Exile 2",
            "/p/Grinding Gear Games/Path of Exile 2 - poe2_production"
        ]
    );
}

fn status_of(game_dir: &str) -> AppStatus {
    AppStatus {
        game_dir: game_dir.to_string(),
        index_path: "index".to_string(),
        index_display_path: "index".to_string(),
        install_layout: InstallLayout::LooseBundles,
        indexed_paths: 3,
        backup_path: "backup".to_string(),
        has_backup: false,
        patch_state: PatchState::Clean,
    }
}

#[test]
fn the_panel_follows_its_tasks() {
    let mut panel = TaskPanel::new("typed".to_string());
    assert_eq!(panel.message, "Ready.");
    assert_eq!(panel.message_kind, MessageKind::Info);
    panel.start("Detecting install...");
    assert_eq!(panel.message, "Detecting install...");
    assert_eq!(panel.handle(TaskEvent::Pending), TaskAction::Wait);
    assert_eq!(panel.busy_label, Some("Detecting install..."));
    assert_eq!(panel.game_dir_input, "typed");

    let found = TaskEvent::Status(Ok(status_of("/games/poe2")));
    assert_eq!(panel.handle(found), TaskAction::End);
    assert_eq!(panel.busy_label, None);
    assert_eq!(panel.game_dir_input, "/games/poe2");
    assert_eq!(panel.message, "Install detected.");
    assert_eq!(panel.message_kind, MessageKind::Success);
    assert_eq!(panel.status.as_ref().unwrap().indexed_paths, 3);

    panel.start("Applying patches...");
    let applied = TaskEvent::Apply(Ok(ApplyReport {
        game_dir: "/games/poe2".to_string(),
        changed_files: 12,
        touched_paths: vec!["a".to_string(), "b".to_string()],
        backup_path: "/backup".to_string(),
    }));
    assert_eq!(panel.handle(applied), TaskAction::ReadStatus);
    assert_eq!(
        panel.message,
        "Applied 12 file(s). Touched 2 bundle/index file(s). Backup: /backup"
    );
    assert_eq!(panel.message_kind, MessageKind::Success);
    assert_eq!(panel.busy_label, None);
}

#[test]
fn failed_tasks_keep_what_is_known_of_the_install() {
    let mut panel = TaskPanel::new(String::new());
    panel.handle(TaskEvent::Status(Ok(status_of("/games/poe2"))));
    for event in [
        TaskEvent::Lost,
        TaskEvent::Status(Err("no index".to_string())),
        TaskEvent::Apply(Err("game is running".to_string())),
    ] {
        panel.start("Working...");
        assert_eq!(panel.handle(event), TaskAction::End);
        assert_eq!(panel.message_kind, MessageKind::Error);
        assert_eq!(panel.busy_label, None);
        assert_eq!(panel.status.as_ref().unwrap().game_dir, "/games/poe2");
    }
    assert_eq!(panel.message, "game is running");
    panel.handle(TaskEvent::Lost);
    assert_eq!(panel.message, "Background task failed unexpectedly.");
}

#[test]
fn a_restore_brings_the_state_behind_it() {
    let mut panel = TaskPanel::new("typed".to_string());
    let report = RestoreReport {
        game_dir: "/games/poe2".to_string(),
        restored_files: 0,
        backup_removed: true,
    };
    let event = TaskEvent::Restore {
        restored: Ok(report),
        status: Some(status_of("/games/poe2")),
    };
    assert_eq!(panel.handle(event), TaskAction::End);
    assert_eq!(panel.message, "Removed obsolete backup.");
    assert_eq!(panel.game_dir_input, "/games/poe2");

    let failed = TaskEvent::Restore {
        restored: Err("no backup".to_string()),
        status: None,
    };
    assert_eq!(panel.handle(failed), TaskAction::End);
    assert_eq!(panel.message, "no backup");
    assert_eq!(panel.message_kind, MessageKind::Error);
    assert!(panel.status.is_none());
    assert_eq!(panel.game_dir_input, "/games/poe2");
}
