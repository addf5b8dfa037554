//! Applying and restoring come to their end where every step goes well.

use crate::apply::{ApplyEvent, ApplyStage};
use crate::backup::{BackupError, GgpkBackupMeta};
use crate::install::InstallLayout;
use crate::restore::{BackupFound, RestoreEvent, RestoreOutcome, RestoreStage};
use vstd::prelude::*;

verus! {

/// What comes of the steps of applying some changes where each goes well: the game is
/// not running, its folder and its index are there, the index can be read and is not
/// patched, the patches change something, and each bundle is there; a backup of an
/// earlier version of the game can be removed, the new one can be made, and the changes
/// can be written.
pub open spec fn good_course(layout: InstallLayout, has_backup: bool, changes: usize) -> Seq<
    ApplyEvent,
> {
    seq![
        ApplyEvent::Processes { game_running: false },
        ApplyEvent::Folder { layout: Some(layout) },
        ApplyEvent::Index { there: true },
        ApplyEvent::Opened { patched: Some(false), has_backup },
        ApplyEvent::PatchSet { changes: Some(changes) },
    ] + Seq::new(changes as nat, |k: int| ApplyEvent::Bundle { there: true }) + if has_backup {
        seq![ApplyEvent::StaleBackup { removed: true }]
    } else {
        Seq::empty()
    } + seq![
        match layout {
            InstallLayout::LooseBundles => ApplyEvent::Backup { made: true },
            InstallLayout::ContentGgpk => ApplyEvent::UndoEntry { kept: true },
        },
        ApplyEvent::Written { done: true },
    ]
}

proof fn lemma_bundles_there(events: Seq<ApplyEvent>, changes: usize, k: nat)
    requires
        k < changes,
        5 + changes <= events.len(),
        forall|i: int|
            5 <= i < 5 + changes ==> #[trigger] events[i] == (ApplyEvent::Bundle { there: true }),
        ({
            let run = crate::apply::run_after(events, 5);
            run.stage == ApplyStage::Bundles(0) && run.changes == changes
        }),
    ensures
        ({
            let run = crate::apply::run_after(events, 5 + k);
            &&& run.stage == ApplyStage::Bundles(k as usize)
            &&& run.changes == changes
            &&& run.layout == crate::apply::run_after(events, 5).layout
            &&& run.patch_state == crate::apply::run_after(events, 5).patch_state
        }),
    decreases k,
{
    if k > 0 {
        lemma_bundles_there(events, changes, (k - 1) as nat);
        assert(events[5 + k - 1] == (ApplyEvent::Bundle { there: true }));
    }
}

/// Where every step goes well, changes are applied.
#[verifier::rlimit(40)]
pub proof fn law_good_course_ends_in_success(
    layout: InstallLayout,
    has_backup: bool,
    changes: usize,
)
    requires
        changes > 0,
    ensures
        ({
            let events = good_course(layout, has_backup, changes);
            crate::apply::run_after(events, events.len()).stage == ApplyStage::Done
        }),
{
    let events = good_course(layout, has_backup, changes);
    let n = changes as nat;
    assert(crate::apply::run_after(events, 0) == crate::apply::new_run());
    assert(events[0] == (ApplyEvent::Processes { game_running: false }));
    assert(crate::apply::run_after(events, 1).stage == ApplyStage::Folder);
    assert(events[1] == (ApplyEvent::Folder { layout: Some(layout) }));
    assert(crate::apply::run_after(events, 2).stage == ApplyStage::Index);
    assert(events[2] == (ApplyEvent::Index { there: true }));
    assert(crate::apply::run_after(events, 3).stage == ApplyStage::Opening);
    assert(events[3] == (ApplyEvent::Opened { patched: Some(false), has_backup }));
    let opened = crate::apply::run_after(events, 4);
    assert(opened.stage == ApplyStage::PatchSet && opened.layout == layout);
    assert(events[4] == (ApplyEvent::PatchSet { changes: Some(changes) }));
    let ready = crate::apply::run_after(events, 5);
    assert(ready.stage == ApplyStage::Bundles(0) && ready.changes == changes);
    assert forall|i: int| 5 <= i < 5 + changes implies #[trigger] events[i] == (
    ApplyEvent::Bundle { there: true }) by {}
    lemma_bundles_there(events, changes, (n - 1) as nat);
    assert(events[5 + n - 1] == (ApplyEvent::Bundle { there: true }));
    let checked = crate::apply::run_after(events, 5 + n);
    assert(checked == crate::apply::after_event(
        crate::apply::run_after(events, (5 + n - 1) as nat),
        events[5 + n - 1],
    ));
    assert(checked.layout == layout);
    if has_backup {
        assert(checked.stage == ApplyStage::StaleBackup);
        assert(events[(5 + n) as int] == (ApplyEvent::StaleBackup { removed: true }));
        let free = crate::apply::run_after(events, 6 + n);
        assert(free == crate::apply::after_event(checked, events[(5 + n) as int]));
        lemma_last_two(events, 6 + n, layout);
    } else {
        lemma_last_two(events, 5 + n, layout);
    }
}

proof fn lemma_last_two(events: Seq<ApplyEvent>, n: nat, layout: InstallLayout)
    requires
        events.len() == n + 2,
        crate::apply::run_after(events, n).layout == layout,
        events[n as int] == match layout {
            InstallLayout::LooseBundles => ApplyEvent::Backup { made: true },
            InstallLayout::ContentGgpk => ApplyEvent::UndoEntry { kept: true },
        },
        crate::apply::run_after(events, n).stage == match layout {
            InstallLayout::LooseBundles => ApplyStage::Backup,
            InstallLayout::ContentGgpk => ApplyStage::UndoEntry,
        },
        events[(n + 1) as int] == (ApplyEvent::Written { done: true }),
    ensures
        crate::apply::run_after(events, events.len()).stage == ApplyStage::Done,
{
    let run = crate::apply::run_after(events, n);
    let next = crate::apply::run_after(events, n + 1);
    assert(next == crate::apply::after_event(run, events[n as int]));
    assert(next.stage == ApplyStage::Writing);
    assert(crate::apply::run_after(events, n + 2) == crate::apply::after_event(
        next,
        events[(n + 1) as int],
    ));
}

/// The first five steps of a restore where a backup holds something and the index is
/// patched.
pub open spec fn restore_begins(
    entries: usize,
    archive: Result<Option<GgpkBackupMeta>, BackupError>,
    layout: InstallLayout,
) -> Seq<RestoreEvent> {
    seq![
        RestoreEvent::Processes { game_running: false },
        RestoreEvent::Folder { found: true },
        RestoreEvent::Backup(BackupFound::Held { entries, archive }),
        RestoreEvent::Opened { patched: Some(true) },
        RestoreEvent::Layout { layout: Some(layout) },
    ]
}

proof fn lemma_restore_begins(
    entries: usize,
    archive: Result<Option<GgpkBackupMeta>, BackupError>,
    layout: InstallLayout,
    events: Seq<RestoreEvent>,
)
    requires
        entries > 0,
        events.len() >= 5,
        events.take(5) == restore_begins(entries, archive, layout),
    ensures
        ({
            let run = crate::restore::run_after(events, 5);
            &&& run.archive == archive
            &&& layout is LooseBundles ==> run.stage == (RestoreStage::Files { overlay: false })
            &&& layout is ContentGgpk ==> match archive {
                Ok(Some(meta)) => run.stage == RestoreStage::Archive(meta),
                Ok(None) => run.stage == (RestoreStage::Files { overlay: true }),
                Err(_) => true,
            }
        }),
{
    let first = restore_begins(entries, archive, layout);
    assert(crate::restore::run_after(events, 0) == crate::restore::new_run());
    assert(events[0] == events.take(5)[0]);
    assert(crate::restore::run_after(events, 1).stage == RestoreStage::Folder);
    assert(events[1] == events.take(5)[1]);
    assert(crate::restore::run_after(events, 2).stage == RestoreStage::Backup);
    assert(events[2] == events.take(5)[2]);
    let read = crate::restore::run_after(events, 3);
    assert(read.stage == RestoreStage::Opening && read.archive == archive);
    assert(events[3] == events.take(5)[3]);
    let opened = crate::restore::run_after(events, 4);
    assert(opened.stage == RestoreStage::Layout && opened.archive == archive);
    assert(events[4] == events.take(5)[4]);
}

/// Where every step goes well, the files of the backup are restored: of the loose
/// layout, and of the standalone archive after the archive itself. The backup goes once
/// something was restored from it.
pub proof fn law_good_restore_ends_in_success(
    entries: usize,
    archive: Result<Option<GgpkBackupMeta>, BackupError>,
    count: usize,
)
    requires
        entries > 0,
    ensures
        ({
            let done = RestoreStage::Done(
                RestoreOutcome {
                    found_backup: true,
                    restored_files: count,
                    backup_removed: count > 0,
                },
            );
            let files = RestoreEvent::Files { restored: Some(count) };
            let loose = restore_begins(entries, archive, InstallLayout::LooseBundles).push(files);
            let whole = restore_begins(entries, archive, InstallLayout::ContentGgpk)
                + seq![
                RestoreEvent::Archive { restored: true },
                RestoreEvent::Overlay { removed: true },
                files,
            ];
            let plain = restore_begins(entries, archive, InstallLayout::ContentGgpk).push(files);
            &&& crate::restore::run_after(loose, 6).stage == done
            &&& match archive {
                Ok(Some(_)) => crate::restore::run_after(whole, 8).stage == done,
                Ok(None) => crate::restore::run_after(plain, 6).stage == done,
                Err(_) => true,
            }
        }),
{
    let files = RestoreEvent::Files { restored: Some(count) };
    let a = restore_begins(entries, archive, InstallLayout::LooseBundles);
    let b = restore_begins(entries, archive, InstallLayout::ContentGgpk);
    let loose = a.push(files);
    assert(loose.take(5) =~= a);
    lemma_restore_begins(entries, archive, InstallLayout::LooseBundles, loose);
    assert(crate::restore::run_after(loose, 6) == crate::restore::after_event(
        crate::restore::run_after(loose, 5),
        loose[5],
    ));
    let plain = b.push(files);
    assert(plain.take(5) =~= b);
    lemma_restore_begins(entries, archive, InstallLayout::ContentGgpk, plain);
    assert(crate::restore::run_after(plain, 6) == crate::restore::after_event(
        crate::restore::run_after(plain, 5),
        plain[5],
    ));
    let whole = b + seq![
        RestoreEvent::Archive { restored: true },
        RestoreEvent::Overlay { removed: true },
        files,
    ];
    assert(whole.take(5) =~= b);
    lemma_restore_begins(entries, archive, InstallLayout::ContentGgpk, whole);
    let r6 = crate::restore::run_after(whole, 6);
    let r7 = crate::restore::run_after(whole, 7);
    assert(r6 == crate::restore::after_event(crate::restore::run_after(whole, 5), whole[5]));
    assert(r7 == crate::restore::after_event(r6, whole[6]));
    assert(crate::restore::run_after(whole, 8) == crate::restore::after_event(r7, whole[7]));
}

/// Without a backup there is nothing to restore; one of an earlier version of the game
/// is removed, and nothing is restored from it.
pub proof fn law_nothing_is_restored_without_need(
    entries: usize,
    archive: Result<Option<GgpkBackupMeta>, BackupError>,
)
    requires
        entries > 0,
    ensures
        ({
            let none = seq![
                RestoreEvent::Processes { game_running: false },
                RestoreEvent::Folder { found: true },
                RestoreEvent::Backup(BackupFound::Missing),
            ];
            let stale = seq![
                RestoreEvent::Processes { game_running: false },
                RestoreEvent::Folder { found: true },
                RestoreEvent::Backup(BackupFound::Held { entries, archive }),
                RestoreEvent::Opened { patched: Some(false) },
                RestoreEvent::StaleBackup { removed: true },
            ];
            &&& crate::restore::run_after(none, 3).stage == RestoreStage::Done(
                RestoreOutcome { found_backup: false, restored_files: 0, backup_removed: false },
            )
            &&& crate::restore::run_after(stale, 5).stage == RestoreStage::Done(
                RestoreOutcome { found_backup: true, restored_files: 0, backup_removed: true },
            )
        }),
{
    let none = seq![
        RestoreEvent::Processes { game_running: false },
        RestoreEvent::Folder { found: true },
        RestoreEvent::Backup(BackupFound::Missing),
    ];
    assert(crate::restore::run_after(none, 0) == crate::restore::new_run());
    assert(crate::restore::run_after(none, 1).stage == RestoreStage::Folder);
    assert(crate::restore::run_after(none, 2).stage == RestoreStage::Backup);
    let stale = seq![
        RestoreEvent::Processes { game_running: false },
        RestoreEvent::Folder { found: true },
        RestoreEvent::Backup(BackupFound::Held { entries, archive }),
        RestoreEvent::Opened { patched: Some(false) },
        RestoreEvent::StaleBackup { removed: true },
    ];
    assert(crate::restore::run_after(stale, 0) == crate::restore::new_run());
    assert(crate::restore::run_after(stale, 1).stage == RestoreStage::Folder);
    assert(crate::restore::run_after(stale, 2).stage == RestoreStage::Backup);
    assert(crate::restore::run_after(stale, 3).stage == RestoreStage::Opening);
    assert(crate::restore::run_after(stale, 4).stage == RestoreStage::StaleBackup);
}

} // verus!
