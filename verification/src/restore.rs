//! The course of a restore. The steps that touch the disk are done elsewhere: a
//! run names the next one, and is told what came of it.

use crate::backup::{
    archive_entries, archive_with, entry_fits, entry_views, file_steps, ggpk_backup_meta, is_meta_path,
    law_new_backup_round_trip, manifest_text, meta_in, new_entries, restore_steps, step_views,
    BackupError, BackupStore, EntryView, GgpkBackupMeta, RestoreStep, StepView,
};
use crate::index_update::custom_name;
use crate::install::InstallLayout;
use crate::paths::lemma_first_part;
use crate::replacements::bundle_prefix_of;
use crate::store::storage_path_of;
use crate::text::starts_with;
use vstd::prelude::*;

verus! {

/// What there is of a backup.
#[derive(Debug, Clone, Copy, PartialEq, Eq)]
pub enum BackupFound {
    Missing,
    Unreadable(BackupError),
    /// How many entries it has, and what it says about the standalone archive.
    Held { entries: usize, archive: Result<Option<GgpkBackupMeta>, BackupError> },
}

/// What there is of a backup whose archive is `s`, if it is there.
pub open spec fn backup_found(s: Option<Seq<u8>>) -> BackupFound {
    match s {
        None => BackupFound::Missing,
        Some(s) => match archive_entries(s) {
            Err(e) => BackupFound::Unreadable(e),
            Ok(entries) => BackupFound::Held {
                entries: entries.len() as usize,
                archive: meta_in(entries, 0),
            },
        },
    }
}

/// What there is of a backup.
pub fn find_backup(store: &BackupStore) -> (r: BackupFound)
    ensures
        r == backup_found(crate::backup::archive_view(store.archive)),
{
    if !store.has_backup() {
        return BackupFound::Missing;
    }
    match store.entries() {
        Err(e) => BackupFound::Unreadable(e),
        Ok(entries) => {
            assert(entry_views(entries@).len() == entries@.len());
            BackupFound::Held { entries: entries.len(), archive: ggpk_backup_meta(&entries) }
        },
    }
}

/// What a run waits for.
#[derive(Debug, Clone, Copy, PartialEq, Eq, Structural)]
pub enum RestoreStage {
    Processes,
    Folder,
    Backup,
    Opening,
    StaleBackup,
    Layout,
    Archive(GgpkBackupMeta),
    Overlay,
    Files { overlay: bool },
    Done(RestoreOutcome),
    Failed(RestoreFailure),
}

/// What was restored.
#[derive(Debug, Clone, Copy, PartialEq, Eq, Structural)]
pub struct RestoreOutcome {
    pub found_backup: bool,
    pub restored_files: usize,
    pub backup_removed: bool,
}

/// Why nothing more is restored.
#[derive(Debug, Clone, Copy, PartialEq, Eq, Structural)]
pub enum RestoreFailure {
    GameRunning,
    /// There is no game folder.
    NoGame,
    BackupUnreadable(BackupError),
    /// The backup holds nothing, which it should not.
    EmptyBackup,
    IndexUnreadable,
    StaleBackupStays,
    NoLayout,
    /// What undoes a patch of the standalone archive cannot be read.
    CorruptBackup(BackupError),
    ArchiveNotRestored,
    OverlayStays,
    FilesNotRestored,
}

/// What came of a step.
#[derive(Debug, Clone, Copy, PartialEq, Eq)]
pub enum RestoreEvent {
    Processes { game_running: bool },
    Folder { found: bool },
    Backup(BackupFound),
    /// Whether the index is patched, if it can be read.
    Opened { patched: Option<bool> },
    StaleBackup { removed: bool },
    Layout { layout: Option<InstallLayout> },
    Archive { restored: bool },
    Overlay { removed: bool },
    /// How many files were restored, if all could be.
    Files { restored: Option<usize> },
}

/// The next step.
#[derive(Debug, Clone, Copy, PartialEq, Eq, Structural)]
pub enum RestoreAction {
    LookForGame,
    FindFolder,
    ReadBackup,
    OpenIndex,
    RemoveStaleBackup,
    DetectLayout,
    RestoreArchive(GgpkBackupMeta),
    RemoveOverlay,
    /// Restore the files of the backup; those that lie over the standalone
    /// archive are removed instead.
    RestoreFiles { overlay: bool },
    /// Forget the cached index, and report.
    Report(RestoreOutcome),
    Fail(RestoreFailure),
}

/// A run.
#[derive(Debug, Clone, Copy, PartialEq, Eq)]
pub struct RestoreRun {
    pub stage: RestoreStage,
    pub archive: Result<Option<GgpkBackupMeta>, BackupError>,
}

/// The step that a run waits for.
pub open spec fn pending(run: RestoreRun) -> RestoreAction {
    match run.stage {
        RestoreStage::Processes => RestoreAction::LookForGame,
        RestoreStage::Folder => RestoreAction::FindFolder,
        RestoreStage::Backup => RestoreAction::ReadBackup,
        RestoreStage::Opening => RestoreAction::OpenIndex,
        RestoreStage::StaleBackup => RestoreAction::RemoveStaleBackup,
        RestoreStage::Layout => RestoreAction::DetectLayout,
        RestoreStage::Archive(meta) => RestoreAction::RestoreArchive(meta),
        RestoreStage::Overlay => RestoreAction::RemoveOverlay,
        RestoreStage::Files { overlay } => RestoreAction::RestoreFiles { overlay },
        RestoreStage::Done(outcome) => RestoreAction::Report(outcome),
        RestoreStage::Failed(f) => RestoreAction::Fail(f),
    }
}

/// The next stage if something went through, or else a failure.
pub open spec fn next_if(
    went: bool,
    next: RestoreStage,
    failure: RestoreFailure,
) -> RestoreStage {
    if went {
        next
    } else {
        RestoreStage::Failed(failure)
    }
}

/// A run after an event. What it did not wait for changes nothing.
pub open spec fn after_event(run: RestoreRun, event: RestoreEvent) -> RestoreRun {
    match (run.stage, event) {
        (RestoreStage::Processes, RestoreEvent::Processes { game_running }) => RestoreRun {
            stage: next_if(!game_running, RestoreStage::Folder, RestoreFailure::GameRunning),
            ..run
        },
        (RestoreStage::Folder, RestoreEvent::Folder { found }) => RestoreRun {
            stage: next_if(found, RestoreStage::Backup, RestoreFailure::NoGame),
            ..run
        },
        (RestoreStage::Backup, RestoreEvent::Backup(found)) => match found {
            BackupFound::Missing => RestoreRun {
                stage: RestoreStage::Done(
                    RestoreOutcome {
                        found_backup: false,
                        restored_files: 0,
                        backup_removed: false,
                    },
                ),
                ..run
            },
            BackupFound::Unreadable(e) => RestoreRun {
                stage: RestoreStage::Failed(RestoreFailure::BackupUnreadable(e)),
                ..run
            },
            BackupFound::Held { entries, archive } => RestoreRun {
                stage: next_if(entries > 0, RestoreStage::Opening, RestoreFailure::EmptyBackup),
                archive,
            },
        },
        (RestoreStage::Opening, RestoreEvent::Opened { patched }) => RestoreRun {
            stage: match patched {
                None => RestoreStage::Failed(RestoreFailure::IndexUnreadable),
                Some(patched) => if patched {
                    RestoreStage::Layout
                } else {
                    RestoreStage::StaleBackup
                },
            },
            ..run
        },
        (RestoreStage::StaleBackup, RestoreEvent::StaleBackup { removed }) => RestoreRun {
            stage: next_if(
                removed,
                RestoreStage::Done(
                    RestoreOutcome { found_backup: true, restored_files: 0, backup_removed: true },
                ),
                RestoreFailure::StaleBackupStays,
            ),
            ..run
        },
        (RestoreStage::Layout, RestoreEvent::Layout { layout }) => RestoreRun {
            stage: match layout {
                None => RestoreStage::Failed(RestoreFailure::NoLayout),
                Some(InstallLayout::LooseBundles) => RestoreStage::Files { overlay: false },
                Some(InstallLayout::ContentGgpk) => match run.archive {
                    Err(e) => RestoreStage::Failed(RestoreFailure::CorruptBackup(e)),
                    Ok(Some(meta)) => RestoreStage::Archive(meta),
                    Ok(None) => RestoreStage::Files { overlay: true },
                },
            },
            ..run
        },
        (RestoreStage::Archive(_), RestoreEvent::Archive { restored }) => RestoreRun {
            stage: next_if(restored, RestoreStage::Overlay, RestoreFailure::ArchiveNotRestored),
            ..run
        },
        (RestoreStage::Overlay, RestoreEvent::Overlay { removed }) => RestoreRun {
            stage: next_if(
                removed,
                RestoreStage::Files { overlay: true },
                RestoreFailure::OverlayStays,
            ),
            ..run
        },
        (RestoreStage::Files { overlay }, RestoreEvent::Files { restored }) => RestoreRun {
            stage: match restored {
                None => RestoreStage::Failed(RestoreFailure::FilesNotRestored),
                Some(count) => RestoreStage::Done(
                    RestoreOutcome {
                        found_backup: true,
                        restored_files: count,
                        backup_removed: count > 0,
                    },
                ),
            },
            ..run
        },
        _ => run,
    }
}

/// A run before its first step.
pub open spec fn new_run() -> RestoreRun {
    RestoreRun { stage: RestoreStage::Processes, archive: Ok(None) }
}

fn go_if(went: bool, next: RestoreStage, failure: RestoreFailure) -> (r: RestoreStage)
    ensures
        r == next_if(went, next, failure),
{
    if went {
        next
    } else {
        RestoreStage::Failed(failure)
    }
}

impl RestoreRun {
    /// A run before its first step.
    pub fn new() -> (r: RestoreRun)
        ensures
            r == new_run(),
    {
        RestoreRun { stage: RestoreStage::Processes, archive: Ok(None) }
    }

    /// The step that the run waits for.
    pub fn action(&self) -> (r: RestoreAction)
        ensures
            r == pending(*self),
    {
        match self.stage {
            RestoreStage::Processes => RestoreAction::LookForGame,
            RestoreStage::Folder => RestoreAction::FindFolder,
            RestoreStage::Backup => RestoreAction::ReadBackup,
            RestoreStage::Opening => RestoreAction::OpenIndex,
            RestoreStage::StaleBackup => RestoreAction::RemoveStaleBackup,
            RestoreStage::Layout => RestoreAction::DetectLayout,
            RestoreStage::Archive(meta) => RestoreAction::RestoreArchive(meta),
            RestoreStage::Overlay => RestoreAction::RemoveOverlay,
            RestoreStage::Files { overlay } => RestoreAction::RestoreFiles { overlay },
            RestoreStage::Done(outcome) => RestoreAction::Report(outcome),
            RestoreStage::Failed(f) => RestoreAction::Fail(f),
        }
    }

    fn take_backup(&mut self, found: BackupFound)
        requires
            old(self).stage is Backup,
        ensures
            *final(self) == after_event(*old(self), RestoreEvent::Backup(found)),
    {
        match found {
            BackupFound::Missing => {
                self.stage = RestoreStage::Done(
                    RestoreOutcome {
                        found_backup: false,
                        restored_files: 0,
                        backup_removed: false,
                    },
                );
            },
            BackupFound::Unreadable(e) => {
                self.stage = RestoreStage::Failed(RestoreFailure::BackupUnreadable(e));
            },
            BackupFound::Held { entries, archive } => {
                self.archive = archive;
                self.stage = go_if(
                    entries > 0,
                    RestoreStage::Opening,
                    RestoreFailure::EmptyBackup,
                );
            },
        }
    }

    fn take_layout(&mut self, layout: Option<InstallLayout>)
        requires
            old(self).stage is Layout,
        ensures
            *final(self) == after_event(*old(self), RestoreEvent::Layout { layout }),
    {
        self.stage = match layout {
            None => RestoreStage::Failed(RestoreFailure::NoLayout),
            Some(InstallLayout::LooseBundles) => RestoreStage::Files { overlay: false },
            Some(InstallLayout::ContentGgpk) => match self.archive {
                Err(e) => RestoreStage::Failed(RestoreFailure::CorruptBackup(e)),
                Ok(Some(meta)) => RestoreStage::Archive(meta),
                Ok(None) => RestoreStage::Files { overlay: true },
            },
        };
    }

    /// Tells the run what came of the step that it waits for, and gives the next
    /// one. What it does not wait for changes nothing.
    pub fn handle(&mut self, event: RestoreEvent) -> (r: RestoreAction)
        ensures
            *final(self) == after_event(*old(self), event),
            r == pending(*final(self)),
    {
        match (self.stage, event) {
            (RestoreStage::Processes, RestoreEvent::Processes { game_running }) => {
                self.stage = go_if(
                    !game_running,
                    RestoreStage::Folder,
                    RestoreFailure::GameRunning,
                );
            },
            (RestoreStage::Folder, RestoreEvent::Folder { found }) => {
                self.stage = go_if(found, RestoreStage::Backup, RestoreFailure::NoGame);
            },
            (RestoreStage::Backup, RestoreEvent::Backup(found)) => self.take_backup(found),
            (RestoreStage::Opening, RestoreEvent::Opened { patched }) => {
                self.stage = match patched {
                    None => RestoreStage::Failed(RestoreFailure::IndexUnreadable),
                    Some(patched) => if patched {
                        RestoreStage::Layout
                    } else {
                        RestoreStage::StaleBackup
                    },
                };
            },
            (RestoreStage::StaleBackup, RestoreEvent::StaleBackup { removed }) => {
                let outcome = RestoreOutcome {
                    found_backup: true,
                    restored_files: 0,
                    backup_removed: true,
                };
                self.stage = go_if(
                    removed,
                    RestoreStage::Done(outcome),
                    RestoreFailure::StaleBackupStays,
                );
            },
            (RestoreStage::Layout, RestoreEvent::Layout { layout }) => self.take_layout(layout),
            (RestoreStage::Archive(_), RestoreEvent::Archive { restored }) => {
                self.stage = go_if(
                    restored,
                    RestoreStage::Overlay,
                    RestoreFailure::ArchiveNotRestored,
                );
            },
            (RestoreStage::Overlay, RestoreEvent::Overlay { removed }) => {
                self.stage = go_if(
                    removed,
                    RestoreStage::Files { overlay: true },
                    RestoreFailure::OverlayStays,
                );
            },
            (RestoreStage::Files { overlay: _ }, RestoreEvent::Files { restored }) => {
                self.stage = match restored {
                    None => RestoreStage::Failed(RestoreFailure::FilesNotRestored),
                    Some(count) => RestoreStage::Done(
                        RestoreOutcome {
                            found_backup: true,
                            restored_files: count,
                            backup_removed: count > 0,
                        },
                    ),
                };
            },
            _ => {},
        }
        self.action()
    }
}

/// The report on a restore.
#[derive(Debug)]
pub struct RestoreReport {
    pub game_dir: String,
    pub restored_files: usize,
    pub backup_removed: bool,
}

/// The report on a restore.
pub fn restore_report(game_dir: String, outcome: RestoreOutcome) -> (r: RestoreReport)
    ensures
        r.game_dir@ == game_dir@,
        r.restored_files == outcome.restored_files,
        r.backup_removed == outcome.backup_removed,
{
    RestoreReport {
        game_dir,
        restored_files: outcome.restored_files,
        backup_removed: outcome.backup_removed,
    }
}

/// What the error messages of a run speak of.
#[derive(Debug)]
pub struct RestorePlaces {
    pub index: String,
    pub backup: String,
    /// What the step that failed said.
    pub cause: String,
}

fn three(a: &str, b: &str, c: &str) -> (r: String)
    ensures
        r@ == a@ + b@ + c@,
{
    let mut r = a.to_owned();
    r.append(b);
    r.append(c);
    r
}

impl RestoreFailure {
    /// What the error says. A failure that has no words of its own says what the
    /// step said.
    pub fn message(self, places: &RestorePlaces) -> (r: String)
        ensures
            r@ == (match self {
                RestoreFailure::GameRunning =>
                    "Path of Exile 2 appears to be running;\nclose the game (and Steam if needed) before apply/restore"@,
                RestoreFailure::EmptyBackup => "backup exists but is empty at "@ + places.backup@
                    + ";\n  check file integrity"@,
                RestoreFailure::IndexUnreadable =>
                    "failed to read current index before restore: "@ + places.index@,
                RestoreFailure::StaleBackupStays => "failed to remove obsolete backup at "@
                    + places.backup@,
                RestoreFailure::ArchiveNotRestored => "failed to restore "@ + places.index@
                    + ";\n  backup may be corrupt"@,
                RestoreFailure::FilesNotRestored => "restore from "@ + places.backup@
                    + " failed;\n  backup may be corrupt"@,
                _ => places.cause@,
            }),
    {
        match self {
            RestoreFailure::GameRunning =>
                "Path of Exile 2 appears to be running;\nclose the game (and Steam if needed) before apply/restore".to_owned(),
            RestoreFailure::EmptyBackup => three(
                "backup exists but is empty at ",
                places.backup.as_str(),
                ";\n  check file integrity",
            ),
            RestoreFailure::IndexUnreadable => {
                let mut r = "failed to read current index before restore: ".to_owned();
                r.append(places.index.as_str());
                r
            },
            RestoreFailure::StaleBackupStays => {
                let mut r = "failed to remove obsolete backup at ".to_owned();
                r.append(places.backup.as_str());
                r
            },
            RestoreFailure::ArchiveNotRestored => three(
                "failed to restore ",
                places.index.as_str(),
                ";\n  backup may be corrupt",
            ),
            RestoreFailure::FilesNotRestored => three(
                "restore from ",
                places.backup.as_str(),
                " failed;\n  backup may be corrupt",
            ),
            _ => places.cause.clone(),
        }
    }
}

/// What removes files that lie over the standalone archive: the loose index and
/// the folder of generated bundles.
pub fn overlay_steps() -> (r: Vec<RestoreStep>)
    ensures
        step_views(r@) == seq![
            StepView::RemoveFile { rel_path: "Bundles2/_.index.bin"@ },
            StepView::RemoveDir { rel_path: "Bundles2/TinyPoe2Smoother"@ },
        ],
{
    let mut r: Vec<RestoreStep> = Vec::new();
    r.push(RestoreStep::RemoveFile { rel_path: "Bundles2/_.index.bin".to_owned() });
    r.push(RestoreStep::RemoveDir { rel_path: "Bundles2/TinyPoe2Smoother".to_owned() });
    assert(step_views(r@) =~= seq![
        StepView::RemoveFile { rel_path: "Bundles2/_.index.bin"@ },
        StepView::RemoveDir { rel_path: "Bundles2/TinyPoe2Smoother"@ },
    ]);
    r
}

/// A run after the first `n` of some events.
pub open spec fn run_after(events: Seq<RestoreEvent>, n: nat) -> RestoreRun
    decreases n,
{
    if n == 0 {
        new_run()
    } else {
        after_event(run_after(events, (n - 1) as nat), events[n - 1])
    }
}

/// Whether an event is among the first `n`.
pub open spec fn seen(events: Seq<RestoreEvent>, n: nat, event: RestoreEvent) -> bool {
    exists|i: int| 0 <= i < n && #[trigger] events[i] == event
}

/// Whether one of the first `n` events tells of a backup that holds something and
/// says this about the standalone archive.
pub open spec fn backup_seen(
    events: Seq<RestoreEvent>,
    n: nat,
    archive: Result<Option<GgpkBackupMeta>, BackupError>,
) -> bool {
    exists|i: int|
        0 <= i < n && holds_something(#[trigger] events[i], archive)
}

/// Whether an event tells of a backup that holds something and says this about
/// the standalone archive.
pub open spec fn holds_something(
    event: RestoreEvent,
    archive: Result<Option<GgpkBackupMeta>, BackupError>,
) -> bool {
    match event {
        RestoreEvent::Backup(BackupFound::Held { entries, archive: a }) => entries > 0 && a
            == archive,
        _ => false,
    }
}

/// Whether a backup says what undoes a patch of the standalone archive.
pub open spec fn tells_of_archive(archive: Result<Option<GgpkBackupMeta>, BackupError>) -> bool {
    match archive {
        Ok(Some(_)) => true,
        _ => false,
    }
}

/// Whether a stage writes to the game's files.
pub open spec fn writes(stage: RestoreStage) -> bool {
    stage is Archive || stage is Overlay || stage is Files
}

/// What has happened by the time that a run has come to its stage.
pub open spec fn has_course(events: Seq<RestoreEvent>, n: nat, run: RestoreRun) -> bool {
    let stage = run.stage;
    let opened = stage is Layout || stage is StaleBackup || writes(stage);
    &&& !(stage is Processes || stage is Failed) ==> seen(
        events,
        n,
        RestoreEvent::Processes { game_running: false },
    )
    &&& opened || stage is Opening ==> backup_seen(events, n, run.archive)
    &&& stage is StaleBackup ==> seen(events, n, RestoreEvent::Opened { patched: Some(false) })
    &&& stage is Layout || writes(stage) ==> seen(
        events,
        n,
        RestoreEvent::Opened { patched: Some(true) },
    )
    &&& stage matches RestoreStage::Archive(meta) ==> run.archive == Ok::<
        Option<GgpkBackupMeta>,
        BackupError,
    >(Some(meta))
    &&& stage is Overlay ==> seen(events, n, RestoreEvent::Archive { restored: true })
    &&& stage is Overlay ==> tells_of_archive(run.archive)
    &&& stage matches RestoreStage::Files { overlay } ==> seen(
        events,
        n,
        RestoreEvent::Layout {
            layout: Some(
                if overlay {
                    InstallLayout::ContentGgpk
                } else {
                    InstallLayout::LooseBundles
                },
            ),
        },
    )
    &&& stage is Archive || stage is Overlay ==> seen(
        events,
        n,
        RestoreEvent::Layout { layout: Some(InstallLayout::ContentGgpk) },
    )
    &&& stage == (RestoreStage::Files { overlay: true }) && tells_of_archive(run.archive)
        ==> seen(events, n, RestoreEvent::Archive { restored: true })
}

proof fn lemma_seen_stays(events: Seq<RestoreEvent>, n: nat)
    requires
        n < events.len(),
    ensures
        forall|e: RestoreEvent| #[trigger] seen(events, n, e) ==> seen(events, n + 1, e),
        forall|a: Result<Option<GgpkBackupMeta>, BackupError>| #[trigger]
            backup_seen(events, n, a) ==> backup_seen(events, n + 1, a),
        seen(events, n + 1, events[n as int]),
{
}

/// The game's files are touched only while the game is not running, if there is a
/// backup that holds something and the index is patched; files of the standalone
/// archive only after the archive itself.
pub proof fn law_only_a_patched_game_is_restored(events: Seq<RestoreEvent>, n: nat)
    requires
        n <= events.len(),
    ensures
        has_course(events, n, run_after(events, n)),
    decreases n,
{
    if n > 0 {
        let m = (n - 1) as nat;
        law_only_a_patched_game_is_restored(events, m);
        lemma_seen_stays(events, m);
        let before = run_after(events, m);
        let event = events[m as int];
        assert(seen(events, n, event));
        if before.stage is Backup {
            if let RestoreEvent::Backup(BackupFound::Held { entries, archive }) = event {
                if entries > 0 {
                    assert(holds_something(events[m as int], archive));
                    assert(backup_seen(events, n, archive));
                }
            }
        }
    }
}

/// The files of the game folder, by their paths.
pub open spec fn after_step(files: Map<Seq<char>, Seq<u8>>, step: StepView) -> Map<
    Seq<char>,
    Seq<u8>,
> {
    match step {
        StepView::WriteFile { rel_path, bytes } => files.insert(rel_path, bytes),
        StepView::RemoveFile { rel_path } => files.remove(rel_path),
        StepView::RemoveDir { rel_path } => files.remove_keys(
            files.dom().filter(|p: Seq<char>| lies_below(p, rel_path)),
        ),
        StepView::RemoveBackup => files,
    }
}

/// Whether a path lies below a folder.
pub open spec fn lies_below(path: Seq<char>, dir: Seq<char>) -> bool {
    starts_with(path, dir.push('/'))
}

/// The files after the first `n` steps.
pub open spec fn after_steps(files: Map<Seq<char>, Seq<u8>>, steps: Seq<StepView>, n: nat) -> Map<
    Seq<char>,
    Seq<u8>,
>
    decreases n,
{
    if n == 0 {
        files
    } else {
        after_step(after_steps(files, steps, (n - 1) as nat), steps[n - 1])
    }
}

/// The files after patches were applied: the generated bundle is there, and the
/// index is another one.
pub open spec fn after_apply(
    files: Map<Seq<char>, Seq<u8>>,
    bundle_name: Seq<char>,
    bundle: Seq<u8>,
    index: Seq<u8>,
) -> Map<Seq<char>, Seq<u8>> {
    files.insert(storage_path_of(bundle_name), bundle).insert("Bundles2/_.index.bin"@, index)
}

proof fn lemma_utf8_len(t: Seq<char>)
    ensures
        vstd::utf8::encode_utf8(t).len() <= 4 * t.len(),
    decreases t.len(),
{
    if t.len() > 0 {
        lemma_utf8_len(t.drop_first());
    }
}

/// In the loose layout a restore undoes what was applied: if the index went into a
/// new backup, then the generated bundle and another index were written, the steps
/// of the restore leave every file of the game folder as it was.
pub proof fn law_restore_undoes_apply(
    files: Map<Seq<char>, Seq<u8>>,
    game_dir: Seq<char>,
    s: Seq<u8>,
    ordinal: nat,
    bundle: Seq<u8>,
    index: Seq<u8>,
)
    requires
        files.contains_key("Bundles2/_.index.bin"@),
        forall|p: Seq<char>|
            lies_below(p, "Bundles2/TinyPoe2Smoother"@) ==> !#[trigger] files.contains_key(p),
        archive_with(
            None,
            game_dir,
            seq![
                EntryView {
                    rel_path: "Bundles2/_.index.bin"@,
                    bytes: files["Bundles2/_.index.bin"@],
                },
            ],
        ) == Ok::<Seq<u8>, BackupError>(s),
        vstd::utf8::encode_utf8(manifest_text(game_dir)).len() <= u32::MAX,
        files["Bundles2/_.index.bin"@].len() <= u64::MAX,
    ensures
        ({
            let name = custom_name(bundle_prefix_of(InstallLayout::LooseBundles), ordinal);
            let applied = after_apply(files, name, bundle, index);
            let entries = archive_entries(s)->Ok_0;
            let steps = restore_steps(entries, false, true);
            &&& archive_entries(s) is Ok
            &&& after_steps(applied, steps, steps.len()) == files
        }),
{
    let path = "Bundles2/_.index.bin"@;
    let dir = "Bundles2/TinyPoe2Smoother"@;
    let e = EntryView { rel_path: path, bytes: files[path] };
    let given = seq![e];
    reveal_strlit("Bundles2/_.index.bin");
    reveal_strlit("Bundles2/TinyPoe2Smoother");
    reveal_strlit("Bundles2/");
    reveal_strlit("TinyPoe2Smoother/");
    reveal_strlit("__tiny_poe2smoother/ggpk-meta-v1");
    assert(entry_fits(e)) by {
        lemma_utf8_len(path);
    }
    law_new_backup_round_trip(game_dir, given, s);
    let none: Seq<Seq<char>> = Seq::empty();
    assert(new_entries(none, given, 1) =~= given) by {
        reveal_with_fuel(new_entries, 2);
    }
    let steps = restore_steps(given, false, true);
    assert(!is_meta_path(path)) by {
        lemma_first_part(path);
        lemma_first_part("__tiny_poe2smoother/ggpk-meta-v1"@);
    }
    assert(file_steps(given, false, 1) =~= seq![
        StepView::WriteFile { rel_path: path, bytes: files[path] },
    ]) by {
        reveal_with_fuel(file_steps, 2);
    }
    assert(steps =~= seq![
        StepView::WriteFile { rel_path: path, bytes: files[path] },
        StepView::RemoveDir { rel_path: dir },
        StepView::RemoveBackup,
    ]);
    let prefix = bundle_prefix_of(InstallLayout::LooseBundles);
    let name = custom_name(prefix, ordinal);
    let stored = storage_path_of(name);
    assert(lies_below(stored, dir)) by {
        assert(stored.subrange(0, dir.push('/').len() as int) =~= dir.push('/'));
    }
    assert(!lies_below(path, dir));
    let applied = after_apply(files, name, bundle, index);
    reveal_with_fuel(after_steps, 4);
    let one = applied.insert(path, files[path]);
    let two = after_step(one, steps[1]);
    assert(two =~= files) by {
        assert forall|p: Seq<char>| two.contains_key(p) <==> files.contains_key(p) by {
            if lies_below(p, dir) {
                assert(!files.contains_key(p));
            }
        }
    }
    assert(after_steps(applied, steps, 3) == files);
}

} // verus!
