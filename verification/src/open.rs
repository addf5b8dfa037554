//! The course of opening the index. The steps that touch the disk are done
//! elsewhere: a run names the next one, and is told what came of it.

use crate::cache::{CacheKey, KeyView};
use crate::install::InstallLayout;
use crate::store::{key_view, same_source, OpenPhase};
use vstd::prelude::*;

verus! {

/// What a run waits for.
#[derive(Debug, Clone, Copy, PartialEq, Eq, Structural)]
pub enum OpenStage {
    /// The key of the game's files.
    Key,
    Mapping,
    /// The key again, once the archive is mapped.
    MappedKey,
    Cache,
    /// The key again, once the cache is read.
    LoadedKey,
    Lock,
    Building,
    /// The key again, once the index is built.
    BuiltKey,
    Caching,
    /// The key again, once the cache is written.
    CachedKey,
    /// The cached index is given out.
    Loaded,
    /// The index that was built is given out.
    Built,
    Failed(OpenFailure),
}

/// Why no index is given out.
#[derive(Debug, Clone, Copy, PartialEq, Eq, Structural)]
pub enum OpenFailure {
    /// What the game's files are cannot be told.
    NoKey,
    NotMapped,
    NotBuilt,
    /// The game's files changed.
    Changed(OpenPhase),
}

/// What came of a step.
#[derive(Debug)]
pub enum OpenEvent {
    /// The key of the game's files. Files that are not there have none.
    Key { key: Option<CacheKey> },
    KeyUnreadable,
    Mapped { done: bool },
    Cache { usable: bool },
    Locked,
    Built { done: bool },
    CacheWritten,
}

/// The next step.
#[derive(Debug, Clone, Copy, PartialEq, Eq, Structural)]
pub enum OpenAction {
    ReadKey,
    MapArchive,
    ReadCache,
    TakeLock,
    BuildIndex,
    WriteCache,
    GiveCached,
    GiveBuilt,
    Fail(OpenFailure),
}

/// A run.
#[derive(Debug)]
pub struct OpenRun {
    pub stage: OpenStage,
    pub layout: InstallLayout,
    /// The key of what the index is read from.
    pub key: Option<CacheKey>,
    /// Whether no one else builds the index at the same time.
    pub locked: bool,
}

/// What an `OpenRun` says.
pub struct OpenView {
    pub stage: OpenStage,
    pub layout: InstallLayout,
    pub key: Option<KeyView>,
    pub locked: bool,
}

impl View for OpenRun {
    type V = OpenView;

    open spec fn view(&self) -> OpenView {
        OpenView {
            stage: self.stage,
            layout: self.layout,
            key: key_view(self.key),
            locked: self.locked,
        }
    }
}

/// A run before its first step.
pub open spec fn new_opening(layout: InstallLayout) -> OpenView {
    OpenView { stage: OpenStage::Key, layout, key: None, locked: false }
}

/// The step that a run waits for.
pub open spec fn pending_step(v: OpenView) -> OpenAction {
    match v.stage {
        OpenStage::Key => OpenAction::ReadKey,
        OpenStage::Mapping => OpenAction::MapArchive,
        OpenStage::MappedKey => OpenAction::ReadKey,
        OpenStage::Cache => OpenAction::ReadCache,
        OpenStage::LoadedKey => OpenAction::ReadKey,
        OpenStage::Lock => OpenAction::TakeLock,
        OpenStage::Building => OpenAction::BuildIndex,
        OpenStage::BuiltKey => OpenAction::ReadKey,
        OpenStage::Caching => OpenAction::WriteCache,
        OpenStage::CachedKey => OpenAction::ReadKey,
        OpenStage::Loaded => OpenAction::GiveCached,
        OpenStage::Built => OpenAction::GiveBuilt,
        OpenStage::Failed(f) => OpenAction::Fail(f),
    }
}

/// The next stage if something went through, or else a failure.
pub open spec fn open_if(went: bool, next: OpenStage, failure: OpenFailure) -> OpenStage {
    if went {
        next
    } else {
        OpenStage::Failed(failure)
    }
}

/// What comes once the key is read: the archive is mapped anew, as another may
/// have taken its place.
pub open spec fn stage_after_key(layout: InstallLayout) -> OpenStage {
    match layout {
        InstallLayout::LooseBundles => OpenStage::Cache,
        InstallLayout::ContentGgpk => OpenStage::Mapping,
    }
}

/// What comes where no cache can be used: who does not hold the lock takes it and
/// looks again, as another may have written the cache meanwhile.
pub open spec fn stage_without_cache(locked: bool) -> OpenStage {
    if locked {
        OpenStage::Building
    } else {
        OpenStage::Lock
    }
}

/// What comes once the index is built: it is cached if the cache can have a key.
pub open spec fn stage_after_building(key: Option<KeyView>) -> OpenStage {
    if key is Some {
        OpenStage::Caching
    } else {
        OpenStage::CachedKey
    }
}

/// A run after an event. What it did not wait for changes nothing.
pub open spec fn after_step(v: OpenView, event: OpenEvent) -> OpenView {
    match (v.stage, event) {
        (OpenStage::Key, OpenEvent::Key { key }) => OpenView {
            stage: stage_after_key(v.layout),
            key: key_view(key),
            ..v
        },
        (OpenStage::MappedKey, OpenEvent::Key { key }) => OpenView {
            stage: open_if(
                key_view(key) == v.key,
                OpenStage::Cache,
                OpenFailure::Changed(OpenPhase::Mapping),
            ),
            ..v
        },
        (OpenStage::LoadedKey, OpenEvent::Key { key }) => OpenView {
            stage: open_if(
                key_view(key) == v.key,
                OpenStage::Loaded,
                OpenFailure::Changed(OpenPhase::Loading),
            ),
            ..v
        },
        (OpenStage::BuiltKey, OpenEvent::Key { key }) => OpenView {
            stage: open_if(
                key_view(key) == v.key,
                stage_after_building(v.key),
                OpenFailure::Changed(OpenPhase::Building),
            ),
            ..v
        },
        (OpenStage::CachedKey, OpenEvent::Key { key }) => OpenView {
            stage: open_if(
                key_view(key) == v.key,
                OpenStage::Built,
                OpenFailure::Changed(OpenPhase::Caching),
            ),
            ..v
        },
        (_, OpenEvent::KeyUnreadable) => if pending_step(v) is ReadKey {
            OpenView { stage: OpenStage::Failed(OpenFailure::NoKey), ..v }
        } else {
            v
        },
        (OpenStage::Mapping, OpenEvent::Mapped { done }) => OpenView {
            stage: open_if(done, OpenStage::MappedKey, OpenFailure::NotMapped),
            ..v
        },
        (OpenStage::Cache, OpenEvent::Cache { usable }) => OpenView {
            stage: if usable {
                OpenStage::LoadedKey
            } else {
                stage_without_cache(v.locked)
            },
            ..v
        },
        (OpenStage::Lock, OpenEvent::Locked) => OpenView {
            stage: OpenStage::Key,
            locked: true,
            ..v
        },
        (OpenStage::Building, OpenEvent::Built { done }) => OpenView {
            stage: open_if(done, OpenStage::BuiltKey, OpenFailure::NotBuilt),
            ..v
        },
        (OpenStage::Caching, OpenEvent::CacheWritten) => OpenView {
            stage: OpenStage::CachedKey,
            ..v
        },
        _ => v,
    }
}

/// How many steps a run takes at most before it ends.
pub open spec fn steps_left(v: OpenView) -> nat {
    let before_building: nat = match v.stage {
        OpenStage::Key => 4,
        OpenStage::Mapping => 3,
        OpenStage::MappedKey => 2,
        OpenStage::Cache => 1,
        _ => 0,
    };
    match v.stage {
        OpenStage::LoadedKey => 1,
        OpenStage::Lock => 9,
        OpenStage::Building => 4,
        OpenStage::BuiltKey => 3,
        OpenStage::Caching => 2,
        OpenStage::CachedKey => 1,
        OpenStage::Loaded => 0,
        OpenStage::Built => 0,
        OpenStage::Failed(_) => 0,
        _ => if v.locked {
            before_building + 4
        } else {
            before_building + 9
        },
    }
}

fn go_if(went: bool, next: OpenStage, failure: OpenFailure) -> (r: OpenStage)
    ensures
        r == open_if(went, next, failure),
{
    if went {
        next
    } else {
        OpenStage::Failed(failure)
    }
}

impl OpenRun {
    /// A run before its first step.
    pub fn new(layout: InstallLayout) -> (r: OpenRun)
        ensures
            r@ == new_opening(layout),
    {
        OpenRun { stage: OpenStage::Key, layout, key: None, locked: false }
    }

    /// The step that the run waits for.
    pub fn action(&self) -> (r: OpenAction)
        ensures
            r == pending_step(self@),
    {
        match self.stage {
            OpenStage::Key => OpenAction::ReadKey,
            OpenStage::Mapping => OpenAction::MapArchive,
            OpenStage::MappedKey => OpenAction::ReadKey,
            OpenStage::Cache => OpenAction::ReadCache,
            OpenStage::LoadedKey => OpenAction::ReadKey,
            OpenStage::Lock => OpenAction::TakeLock,
            OpenStage::Building => OpenAction::BuildIndex,
            OpenStage::BuiltKey => OpenAction::ReadKey,
            OpenStage::Caching => OpenAction::WriteCache,
            OpenStage::CachedKey => OpenAction::ReadKey,
            OpenStage::Loaded => OpenAction::GiveCached,
            OpenStage::Built => OpenAction::GiveBuilt,
            OpenStage::Failed(f) => OpenAction::Fail(f),
        }
    }

    fn take_key(&mut self, key: Option<CacheKey>)
        ensures
            final(self)@ == after_step(old(self)@, OpenEvent::Key { key }),
    {
        let same = same_source(&key, &self.key);
        match self.stage {
            OpenStage::Key => {
                self.key = key;
                self.stage = match self.layout {
                    InstallLayout::LooseBundles => OpenStage::Cache,
                    InstallLayout::ContentGgpk => OpenStage::Mapping,
                };
            },
            OpenStage::MappedKey => {
                self.stage = go_if(
                    same,
                    OpenStage::Cache,
                    OpenFailure::Changed(OpenPhase::Mapping),
                );
            },
            OpenStage::LoadedKey => {
                self.stage = go_if(
                    same,
                    OpenStage::Loaded,
                    OpenFailure::Changed(OpenPhase::Loading),
                );
            },
            OpenStage::BuiltKey => {
                let next = if self.key.is_some() {
                    OpenStage::Caching
                } else {
                    OpenStage::CachedKey
                };
                self.stage = go_if(same, next, OpenFailure::Changed(OpenPhase::Building));
            },
            OpenStage::CachedKey => {
                self.stage = go_if(
                    same,
                    OpenStage::Built,
                    OpenFailure::Changed(OpenPhase::Caching),
                );
            },
            _ => {},
        }
    }

    /// Takes up what came of the step. What the run did not wait for changes
    /// nothing.
    pub fn handle(&mut self, event: OpenEvent)
        ensures
            final(self)@ == after_step(old(self)@, event),
    {
        match (self.stage, event) {
            (_, OpenEvent::Key { key }) => self.take_key(key),
            (_, OpenEvent::KeyUnreadable) => {
                if self.action() == OpenAction::ReadKey {
                    self.stage = OpenStage::Failed(OpenFailure::NoKey);
                }
            },
            (OpenStage::Mapping, OpenEvent::Mapped { done }) => {
                self.stage = go_if(done, OpenStage::MappedKey, OpenFailure::NotMapped);
            },
            (OpenStage::Cache, OpenEvent::Cache { usable }) => {
                self.stage = if usable {
                    OpenStage::LoadedKey
                } else if self.locked {
                    OpenStage::Building
                } else {
                    OpenStage::Lock
                };
            },
            (OpenStage::Lock, OpenEvent::Locked) => {
                self.stage = OpenStage::Key;
                self.locked = true;
            },
            (OpenStage::Building, OpenEvent::Built { done }) => {
                self.stage = go_if(done, OpenStage::BuiltKey, OpenFailure::NotBuilt);
            },
            (OpenStage::Caching, OpenEvent::CacheWritten) => {
                self.stage = OpenStage::CachedKey;
            },
            _ => {},
        }
    }
}

/// Whether an index is given out.
pub open spec fn is_opened(v: OpenView) -> bool {
    v.stage is Loaded || v.stage is Built
}

/// An index is given out only once the game's files were seen to be those that it
/// was read from.
pub proof fn law_opened_index_is_of_the_same_files(v: OpenView, event: OpenEvent)
    requires
        !is_opened(v),
        is_opened(after_step(v, event)),
    ensures
        event matches OpenEvent::Key { key } && key_view(key) == v.key,
        after_step(v, event).key == v.key,
{
}

/// A cache is written only of an index that was built while the game's files stayed
/// the same, under a key.
pub proof fn law_changed_files_are_not_cached(v: OpenView, event: OpenEvent)
    requires
        pending_step(v) !is WriteCache,
        pending_step(after_step(v, event)) is WriteCache,
    ensures
        v.stage is BuiltKey,
        v.key is Some,
        event matches OpenEvent::Key { key } && key_view(key) == v.key,
{
}

/// Files that changed meanwhile end a run.
pub proof fn law_changed_files_end_the_opening(v: OpenView, key: Option<CacheKey>)
    requires
        pending_step(v) is ReadKey,
        v.stage !is Key,
        key_view(key) != v.key,
    ensures
        after_step(v, OpenEvent::Key { key }).stage matches OpenStage::Failed(
            OpenFailure::Changed(_),
        ),
{
}

/// The index is built only with the lock held, and only after the cache was looked
/// at with the lock held.
pub proof fn law_index_is_built_under_the_lock(v: OpenView, event: OpenEvent)
    requires
        pending_step(v) !is BuildIndex,
        pending_step(after_step(v, event)) is BuildIndex,
    ensures
        v.locked,
        v.stage is Cache,
        event == (OpenEvent::Cache { usable: false }),
{
}

/// Every event changes nothing or brings a run nearer to its end, which it reaches
/// in at most thirteen steps.
pub proof fn law_opening_ends(v: OpenView, event: OpenEvent, layout: InstallLayout)
    ensures
        after_step(v, event) == v || steps_left(after_step(v, event)) < steps_left(v),
        steps_left(v) == 0 ==> is_opened(v) || v.stage is Failed,
        steps_left(new_opening(layout)) == 13,
{
}

} // verus!
