//! The course of applying patches. The steps that touch the disk are done
//! elsewhere: a run names the next one, and is told what came of it.

use crate::app::{ensure_can_apply, classify_patch_state, state_of, ApplyBlocked, PatchState};
use crate::install::InstallLayout;
use vstd::prelude::*;

verus! {

/// What a run waits for.
#[derive(Debug, Clone, Copy, PartialEq, Eq, Structural)]
pub enum ApplyStage {
    Processes,
    Folder,
    Index,
    Opening,
    PatchSet,
    /// Whether the bundle of each change is there; the number of the next one.
    Bundles(usize),
    StaleBackup,
    Backup,
    /// What undoes the patch of the standalone archive.
    UndoEntry,
    Writing,
    Done,
    Failed(ApplyFailure),
}

/// Why nothing is applied.
#[derive(Debug, Clone, Copy, PartialEq, Eq, Structural)]
pub enum ApplyFailure {
    GameRunning,
    /// There is no game folder.
    NoGame,
    IndexMissing,
    IndexUnreadable,
    Blocked(ApplyBlocked),
    /// The patches cannot be worked out.
    NoPatchSet,
    /// The patches change nothing.
    NoChanges,
    /// The bundle of a change is not there. The number is that of the change.
    BundleMissing(usize),
    StaleBackupStays,
    NoBackup,
    NotWritten,
}

/// What came of a step.
#[derive(Debug, Clone, Copy, PartialEq, Eq, Structural)]
pub enum ApplyEvent {
    Processes { game_running: bool },
    Folder { layout: Option<InstallLayout> },
    Index { there: bool },
    /// What the index says, if it can be read, and whether there is a backup.
    Opened { patched: Option<bool>, has_backup: bool },
    /// How many changes the patches make, if that can be worked out.
    PatchSet { changes: Option<usize> },
    Bundle { there: bool },
    StaleBackup { removed: bool },
    Backup { made: bool },
    /// Whether what undoes the patch is in the backup.
    UndoEntry { kept: bool },
    Written { done: bool },
}

/// The next step.
#[derive(Debug, Clone, Copy, PartialEq, Eq, Structural)]
pub enum ApplyAction {
    LookForGame,
    FindFolder,
    LookForIndex,
    OpenIndex,
    ComputePatchSet,
    LookForBundle(usize),
    RemoveStaleBackup,
    BackUpIndex,
    PutUndoEntry,
    Write,
    Report,
    Fail(ApplyFailure),
}

/// A run.
#[derive(Debug, Clone, Copy, PartialEq, Eq, Structural)]
pub struct ApplyRun {
    pub stage: ApplyStage,
    pub layout: InstallLayout,
    pub patch_state: PatchState,
    pub changes: usize,
}

/// The step that a run waits for.
pub open spec fn pending(run: ApplyRun) -> ApplyAction {
    match run.stage {
        ApplyStage::Processes => ApplyAction::LookForGame,
        ApplyStage::Folder => ApplyAction::FindFolder,
        ApplyStage::Index => ApplyAction::LookForIndex,
        ApplyStage::Opening => ApplyAction::OpenIndex,
        ApplyStage::PatchSet => ApplyAction::ComputePatchSet,
        ApplyStage::Bundles(k) => ApplyAction::LookForBundle(k),
        ApplyStage::StaleBackup => ApplyAction::RemoveStaleBackup,
        ApplyStage::Backup => ApplyAction::BackUpIndex,
        ApplyStage::UndoEntry => ApplyAction::PutUndoEntry,
        ApplyStage::Writing => ApplyAction::Write,
        ApplyStage::Done => ApplyAction::Report,
        ApplyStage::Failed(f) => ApplyAction::Fail(f),
    }
}

/// What comes once a backup is no longer in the way: in the loose layout the
/// index is backed up; for the standalone archive what undoes the patch is put
/// into the backup.
pub open spec fn stage_before_writing(layout: InstallLayout) -> ApplyStage {
    match layout {
        InstallLayout::LooseBundles => ApplyStage::Backup,
        InstallLayout::ContentGgpk => ApplyStage::UndoEntry,
    }
}

/// What comes once all bundles are there: a backup of an earlier version of the
/// game is removed first.
pub open spec fn stage_after_bundles(run: ApplyRun) -> ApplyStage {
    if run.patch_state is StaleBackup {
        ApplyStage::StaleBackup
    } else {
        stage_before_writing(run.layout)
    }
}

/// The next stage if something went through, or else a failure.
pub open spec fn next_if(went: bool, next: ApplyStage, failure: ApplyFailure) -> ApplyStage {
    if went {
        next
    } else {
        ApplyStage::Failed(failure)
    }
}

/// A run after an event. What it did not wait for changes nothing.
pub open spec fn after_event(run: ApplyRun, event: ApplyEvent) -> ApplyRun {
    match (run.stage, event) {
        (ApplyStage::Processes, ApplyEvent::Processes { game_running }) => ApplyRun {
            stage: next_if(!game_running, ApplyStage::Folder, ApplyFailure::GameRunning),
            ..run
        },
        (ApplyStage::Folder, ApplyEvent::Folder { layout }) => match layout {
            Some(layout) => ApplyRun { stage: ApplyStage::Index, layout, ..run },
            None => ApplyRun { stage: ApplyStage::Failed(ApplyFailure::NoGame), ..run },
        },
        (ApplyStage::Index, ApplyEvent::Index { there }) => ApplyRun {
            stage: next_if(there, ApplyStage::Opening, ApplyFailure::IndexMissing),
            ..run
        },
        (ApplyStage::Opening, ApplyEvent::Opened { patched, has_backup }) => match patched {
            None => ApplyRun { stage: ApplyStage::Failed(ApplyFailure::IndexUnreadable), ..run },
            Some(patched) => {
                let patch_state = state_of(has_backup, patched);
                let stage = match patch_state {
                    PatchState::Patched => ApplyStage::Failed(
                        ApplyFailure::Blocked(ApplyBlocked::AlreadyPatched),
                    ),
                    PatchState::PatchedMissingBackup => ApplyStage::Failed(
                        ApplyFailure::Blocked(ApplyBlocked::PatchedMissingBackup),
                    ),
                    _ => ApplyStage::PatchSet,
                };
                ApplyRun { stage, patch_state, ..run }
            },
        },
        (ApplyStage::PatchSet, ApplyEvent::PatchSet { changes }) => match changes {
            None => ApplyRun { stage: ApplyStage::Failed(ApplyFailure::NoPatchSet), ..run },
            Some(changes) => ApplyRun {
                stage: next_if(changes > 0, ApplyStage::Bundles(0), ApplyFailure::NoChanges),
                changes,
                ..run
            },
        },
        (ApplyStage::Bundles(k), ApplyEvent::Bundle { there }) => ApplyRun {
            stage: if !there {
                ApplyStage::Failed(ApplyFailure::BundleMissing(k))
            } else if k + 1 < run.changes {
                ApplyStage::Bundles((k + 1) as usize)
            } else {
                stage_after_bundles(run)
            },
            ..run
        },
        (ApplyStage::StaleBackup, ApplyEvent::StaleBackup { removed }) => ApplyRun {
            stage: next_if(
                removed,
                stage_before_writing(run.layout),
                ApplyFailure::StaleBackupStays,
            ),
            ..run
        },
        (ApplyStage::Backup, ApplyEvent::Backup { made }) => ApplyRun {
            stage: next_if(made, ApplyStage::Writing, ApplyFailure::NoBackup),
            ..run
        },
        (ApplyStage::UndoEntry, ApplyEvent::UndoEntry { kept }) => ApplyRun {
            stage: next_if(kept, ApplyStage::Writing, ApplyFailure::NotWritten),
            ..run
        },
        (ApplyStage::Writing, ApplyEvent::Written { done }) => ApplyRun {
            stage: next_if(done, ApplyStage::Done, ApplyFailure::NotWritten),
            ..run
        },
        _ => run,
    }
}

/// A run before its first step.
pub open spec fn new_run() -> ApplyRun {
    ApplyRun {
        stage: ApplyStage::Processes,
        layout: InstallLayout::LooseBundles,
        patch_state: PatchState::Clean,
        changes: 0,
    }
}

fn go_if(went: bool, next: ApplyStage, failure: ApplyFailure) -> (r: ApplyStage)
    ensures
        r == next_if(went, next, failure),
{
    if went {
        next
    } else {
        ApplyStage::Failed(failure)
    }
}

fn before_writing(layout: InstallLayout) -> (r: ApplyStage)
    ensures
        r == stage_before_writing(layout),
{
    match layout {
        InstallLayout::LooseBundles => ApplyStage::Backup,
        InstallLayout::ContentGgpk => ApplyStage::UndoEntry,
    }
}

impl ApplyRun {
    /// A run before its first step.
    pub fn new() -> (r: ApplyRun)
        ensures
            r == new_run(),
    {
        ApplyRun {
            stage: ApplyStage::Processes,
            layout: InstallLayout::LooseBundles,
            patch_state: PatchState::Clean,
            changes: 0,
        }
    }

    /// The step that the run waits for.
    pub fn action(&self) -> (r: ApplyAction)
        ensures
            r == pending(*self),
    {
        match self.stage {
            ApplyStage::Processes => ApplyAction::LookForGame,
            ApplyStage::Folder => ApplyAction::FindFolder,
            ApplyStage::Index => ApplyAction::LookForIndex,
            ApplyStage::Opening => ApplyAction::OpenIndex,
            ApplyStage::PatchSet => ApplyAction::ComputePatchSet,
            ApplyStage::Bundles(k) => ApplyAction::LookForBundle(k),
            ApplyStage::StaleBackup => ApplyAction::RemoveStaleBackup,
            ApplyStage::Backup => ApplyAction::BackUpIndex,
            ApplyStage::UndoEntry => ApplyAction::PutUndoEntry,
            ApplyStage::Writing => ApplyAction::Write,
            ApplyStage::Done => ApplyAction::Report,
            ApplyStage::Failed(f) => ApplyAction::Fail(f),
        }
    }

    /// Tells the run what came of the step that it waits for, and gives the next
    /// one. What it does not wait for changes nothing.
    pub fn handle(&mut self, event: ApplyEvent) -> (r: ApplyAction)
        ensures
            *final(self) == after_event(*old(self), event),
            r == pending(*final(self)),
    {
        match (self.stage, event) {
            (ApplyStage::Processes, ApplyEvent::Processes { game_running }) => {
                self.stage = go_if(!game_running, ApplyStage::Folder, ApplyFailure::GameRunning);
            },
            (ApplyStage::Folder, ApplyEvent::Folder { layout }) => match layout {
                Some(layout) => {
                    self.stage = ApplyStage::Index;
                    self.layout = layout;
                },
                None => {
                    self.stage = ApplyStage::Failed(ApplyFailure::NoGame);
                },
            },
            (ApplyStage::Index, ApplyEvent::Index { there }) => {
                self.stage = go_if(there, ApplyStage::Opening, ApplyFailure::IndexMissing);
            },
            (ApplyStage::Opening, ApplyEvent::Opened { patched, has_backup }) => match patched {
                None => {
                    self.stage = ApplyStage::Failed(ApplyFailure::IndexUnreadable);
                },
                Some(patched) => {
                    self.patch_state = classify_patch_state(has_backup, patched);
                    self.stage = match ensure_can_apply(self.patch_state) {
                        Ok(_) => ApplyStage::PatchSet,
                        Err(e) => ApplyStage::Failed(ApplyFailure::Blocked(e)),
                    };
                },
            },
            (ApplyStage::PatchSet, ApplyEvent::PatchSet { changes }) => match changes {
                None => {
                    self.stage = ApplyStage::Failed(ApplyFailure::NoPatchSet);
                },
                Some(changes) => {
                    self.stage = go_if(
                        changes > 0,
                        ApplyStage::Bundles(0),
                        ApplyFailure::NoChanges,
                    );
                    self.changes = changes;
                },
            },
            (ApplyStage::Bundles(k), ApplyEvent::Bundle { there }) => {
                self.stage = if !there {
                    ApplyStage::Failed(ApplyFailure::BundleMissing(k))
                } else if k < self.changes && k + 1 < self.changes {
                    ApplyStage::Bundles(k + 1)
                } else if self.patch_state.has_stale_backup() {
                    ApplyStage::StaleBackup
                } else {
                    before_writing(self.layout)
                };
            },
            (ApplyStage::StaleBackup, ApplyEvent::StaleBackup { removed }) => {
                let next = before_writing(self.layout);
                self.stage = go_if(removed, next, ApplyFailure::StaleBackupStays);
            },
            (ApplyStage::Backup, ApplyEvent::Backup { made }) => {
                self.stage = go_if(made, ApplyStage::Writing, ApplyFailure::NoBackup);
            },
            (ApplyStage::UndoEntry, ApplyEvent::UndoEntry { kept }) => {
                self.stage = go_if(kept, ApplyStage::Writing, ApplyFailure::NotWritten);
            },
            (ApplyStage::Writing, ApplyEvent::Written { done }) => {
                self.stage = go_if(done, ApplyStage::Done, ApplyFailure::NotWritten);
            },
            _ => {},
        }
        self.action()
    }
}

/// What the error messages of a run speak of.
#[derive(Debug)]
pub struct ApplyPlaces {
    pub index: String,
    pub backup: String,
    /// What is written to.
    pub target: String,
    /// The path and the bundle of the change whose bundle was looked for last.
    pub change: String,
    pub bundle: String,
    /// What the step that failed said.
    pub cause: String,
}

/// What is written to, as it is named in an error message: the index of the
/// archive, or the folder of generated bundles.
pub open spec fn write_target_of(
    layout: InstallLayout,
    index: Seq<char>,
    bundles_dir: Seq<char>,
) -> Seq<char> {
    match layout {
        InstallLayout::ContentGgpk => index,
        InstallLayout::LooseBundles => crate::install::joined_path(
            bundles_dir,
            "TinyPoe2Smoother"@,
        ),
    }
}

/// What is written to, as it is named in an error message.
pub fn write_target(layout: InstallLayout, index: &str, bundles_dir: &str) -> (r: String)
    ensures
        r@ == write_target_of(layout, index@, bundles_dir@),
{
    match layout {
        InstallLayout::ContentGgpk => index.to_owned(),
        InstallLayout::LooseBundles => crate::install::join_path(bundles_dir, "TinyPoe2Smoother"),
    }
}

fn three(a: &str, b: &str, c: &str) -> (r: String)
    ensures
        r@ == a@ + b@ + c@,
{
    let mut r = a.to_owned();
    r.append(b);
    r.append(c);
    r
}

impl ApplyFailure {
    /// What the error says. A failure that has no words of its own says what the
    /// step said.
    pub fn message(self, places: &ApplyPlaces) -> (r: String)
        ensures
            r@ == (match self {
                ApplyFailure::GameRunning =>
                    "Path of Exile 2 appears to be running;\nclose the game (and Steam if needed) before apply/restore"@,
                ApplyFailure::NoGame => places.cause@,
                ApplyFailure::IndexMissing => "index file not found at "@ + places.index@
                    + ";\nverify game install or choose the game folder with Browse"@,
                ApplyFailure::IndexUnreadable => "failed to read/decode "@ + places.index@
                    + ";\n  cause: "@ + places.cause@
                    + "\nverify game files with Steam or the standalone launcher"@,
                ApplyFailure::Blocked(b) => b.text(places.backup@),
                ApplyFailure::NoPatchSet => places.cause@,
                ApplyFailure::NoChanges =>
                    "selected patches produced no changes;\nthe game may already be patched or this game version may be unsupported"@,
                ApplyFailure::BundleMissing(_) => "bundle file required by '"@ + places.change@
                    + "' not found: "@ + places.bundle@
                    + ";\nverify game files with Steam or the standalone launcher"@,
                ApplyFailure::StaleBackupStays => "failed to remove obsolete backup at "@
                    + places.backup@,
                ApplyFailure::NoBackup => "failed to create backup at "@ + places.backup@
                    + ";\n  check disk space and permissions"@,
                ApplyFailure::NotWritten => "failed to write generated bundle to "@
                    + places.target@ + ";\n  restore first if partially applied"@,
            }),
    {
        match self {
            ApplyFailure::GameRunning =>
                "Path of Exile 2 appears to be running;\nclose the game (and Steam if needed) before apply/restore".to_owned(),
            ApplyFailure::NoGame => places.cause.clone(),
            ApplyFailure::IndexMissing => three(
                "index file not found at ",
                places.index.as_str(),
                ";\nverify game install or choose the game folder with Browse",
            ),
            ApplyFailure::IndexUnreadable => {
                let mut r = three(
                    "failed to read/decode ",
                    places.index.as_str(),
                    ";\n  cause: ",
                );
                r.append(places.cause.as_str());
                r.append("\nverify game files with Steam or the standalone launcher");
                r
            },
            ApplyFailure::Blocked(b) => b.message(places.backup.as_str()),
            ApplyFailure::NoPatchSet => places.cause.clone(),
            ApplyFailure::NoChanges =>
                "selected patches produced no changes;\nthe game may already be patched or this game version may be unsupported".to_owned(),
            ApplyFailure::BundleMissing(_) => {
                let mut r = three(
                    "bundle file required by '",
                    places.change.as_str(),
                    "' not found: ",
                );
                r.append(places.bundle.as_str());
                r.append(";\nverify game files with Steam or the standalone launcher");
                r
            },
            ApplyFailure::StaleBackupStays => {
                let mut r = "failed to remove obsolete backup at ".to_owned();
                r.append(places.backup.as_str());
                r
            },
            ApplyFailure::NoBackup => three(
                "failed to create backup at ",
                places.backup.as_str(),
                ";\n  check disk space and permissions",
            ),
            ApplyFailure::NotWritten => three(
                "failed to write generated bundle to ",
                places.target.as_str(),
                ";\n  restore first if partially applied",
            ),
        }
    }
}

/// A run after the first `n` of some events.
pub open spec fn run_after(events: Seq<ApplyEvent>, n: nat) -> ApplyRun
    decreases n,
{
    if n == 0 {
        new_run()
    } else {
        after_event(run_after(events, (n - 1) as nat), events[n - 1])
    }
}

/// Whether an event is among the first `n`.
pub open spec fn seen(events: Seq<ApplyEvent>, n: nat, event: ApplyEvent) -> bool {
    exists|i: int| 0 <= i < n && #[trigger] events[i] == event
}

/// How far a stage is from the first one.
pub open spec fn stage_rank(stage: ApplyStage) -> int {
    match stage {
        ApplyStage::Processes => 0,
        ApplyStage::Folder => 1,
        ApplyStage::Index => 2,
        ApplyStage::Opening => 3,
        ApplyStage::PatchSet => 4,
        ApplyStage::Bundles(_) => 5,
        ApplyStage::StaleBackup => 6,
        ApplyStage::Backup => 7,
        ApplyStage::UndoEntry => 7,
        ApplyStage::Writing => 8,
        ApplyStage::Done => 9,
        ApplyStage::Failed(_) => -1,
    }
}

/// How many of the first `n` events say that a bundle is there.
pub open spec fn bundles_seen(events: Seq<ApplyEvent>, n: nat) -> nat
    decreases n,
{
    if n == 0 {
        0
    } else if events[n - 1] == (ApplyEvent::Bundle { there: true }) {
        bundles_seen(events, (n - 1) as nat) + 1
    } else {
        bundles_seen(events, (n - 1) as nat)
    }
}

/// What has happened by the time that a run has come to its stage.
pub open spec fn has_course(events: Seq<ApplyEvent>, n: nat, run: ApplyRun) -> bool {
    let rank = stage_rank(run.stage);
    &&& rank >= 1 ==> seen(events, n, ApplyEvent::Processes { game_running: false })
    &&& rank >= 2 ==> seen(events, n, ApplyEvent::Folder { layout: Some(run.layout) })
    &&& rank >= 3 ==> seen(events, n, ApplyEvent::Index { there: true })
    &&& rank >= 4 ==> {
        &&& run.patch_state is Clean || run.patch_state is StaleBackup
        &&& seen(
            events,
            n,
            ApplyEvent::Opened {
                patched: Some(false),
                has_backup: run.patch_state is StaleBackup,
            },
        )
    }
    &&& rank >= 5 ==> {
        &&& run.changes > 0
        &&& seen(events, n, ApplyEvent::PatchSet { changes: Some(run.changes) })
    }
    &&& run.stage matches ApplyStage::Bundles(k) ==> k < run.changes && bundles_seen(events, n)
        >= k
    &&& rank >= 6 ==> bundles_seen(events, n) >= run.changes
    &&& rank == 6 ==> run.patch_state is StaleBackup
    &&& rank >= 7 && run.patch_state is StaleBackup ==> seen(
        events,
        n,
        ApplyEvent::StaleBackup { removed: true },
    )
    &&& run.stage is Backup ==> run.layout is LooseBundles
    &&& run.stage is UndoEntry ==> run.layout is ContentGgpk
    &&& rank >= 8 && run.layout is LooseBundles ==> seen(
        events,
        n,
        ApplyEvent::Backup { made: true },
    )
    &&& rank >= 8 && run.layout is ContentGgpk ==> seen(
        events,
        n,
        ApplyEvent::UndoEntry { kept: true },
    )
    &&& rank >= 9 ==> seen(events, n, ApplyEvent::Written { done: true })
}

proof fn lemma_seen_stays(events: Seq<ApplyEvent>, n: nat)
    requires
        n < events.len(),
    ensures
        forall|e: ApplyEvent| #[trigger] seen(events, n, e) ==> seen(events, n + 1, e),
        seen(events, n + 1, events[n as int]),
{
}

/// Nothing is written, and nothing is reported as applied, unless the game is not
/// running, the index is there, can be read and is not patched, the patches change
/// something, the bundle of each change is there, a backup of an earlier version
/// is removed, and the backup is made: that of the index in the loose layout, and
/// what undoes the patch for the standalone archive.
#[verifier::rlimit(100)]
pub proof fn law_nothing_is_written_before_its_time(events: Seq<ApplyEvent>, n: nat)
    requires
        n <= events.len(),
    ensures
        has_course(events, n, run_after(events, n)),
    decreases n,
{
    if n > 0 {
        let m = (n - 1) as nat;
        law_nothing_is_written_before_its_time(events, m);
        lemma_seen_stays(events, m);
        let before = run_after(events, m);
        let event = events[m as int];
        let after = after_event(before, event);
        assert(seen(events, n, event));
    }
}

/// Before anything is written, and before anything is reported as applied, the backup
/// is made: in the loose layout the index is backed up, and for the standalone archive
/// what undoes the patch is in the backup.
pub proof fn law_backup_comes_before_the_write(events: Seq<ApplyEvent>, n: nat)
    requires
        n <= events.len(),
        pending(run_after(events, n)) is Write || pending(run_after(events, n)) is Report,
    ensures
        match run_after(events, n).layout {
            InstallLayout::LooseBundles => seen(events, n, ApplyEvent::Backup { made: true }),
            InstallLayout::ContentGgpk => seen(events, n, ApplyEvent::UndoEntry { kept: true }),
        },
{
    law_nothing_is_written_before_its_time(events, n);
}

/// A run that has failed stays so, and what it failed of is what it says.
pub proof fn law_failure_is_final(events: Seq<ApplyEvent>, m: nat, n: nat)
    requires
        m <= n <= events.len(),
        run_after(events, m).stage is Failed,
    ensures
        run_after(events, n) == run_after(events, m),
    decreases n,
{
    if m < n {
        law_failure_is_final(events, m, (n - 1) as nat);
    }
}

} // verus!
