//! What is chosen in the window: the patches, the folder, and what the dialogs
//! lead to.

use crate::app::PatchState;
use crate::blocks::str_views;
use crate::color_editor::ColorModEntry;
use crate::patches::{
    every_named_patch, is_selected, law_every_patch_is_named, name_of, parse_patch, parsed_patch,
    named_ids, PatchId,
};
use crate::text::{
    char_range, chars_of, is_whitespace, string_of, texts, unicode_whitespace,
};
use vstd::prelude::*;

verus! {

/// The patches that are selected where nothing was saved.
pub open spec fn default_patches() -> Seq<PatchId> {
    seq![PatchId::Minimap, PatchId::Fog, PatchId::Rain]
}

/// The patches that the first `n` names stand for, each once. Names that stand
/// for none are passed over.
pub open spec fn known_patches(names: Seq<Seq<char>>, n: nat) -> Seq<PatchId>
    decreases n,
{
    if n == 0 {
        Seq::empty()
    } else {
        let before = known_patches(names, (n - 1) as nat);
        match parsed_patch(names[n - 1]) {
            Some(id) => if before.contains(id) {
                before
            } else {
                before.push(id)
            },
            None => before,
        }
    }
}

/// The selection that saved names stand for, or that of the defaults.
pub open spec fn restored_patches(names: Seq<Seq<char>>) -> Seq<PatchId> {
    let known = known_patches(names, names.len());
    if known.len() == 0 {
        default_patches()
    } else {
        known
    }
}

/// The selection that saved names stand for, or that of the defaults.
pub fn restored_selection(names: &Vec<String>) -> (r: Vec<PatchId>)
    ensures
        r@ == restored_patches(texts(names@)),
{
    let ghost all = texts(names@);
    let n: usize = names.len();
    let mut r: Vec<PatchId> = Vec::new();
    let mut i: usize = 0;
    while i < n
        invariant
            i <= n == names@.len(),
            all == texts(names@),
            r@ == known_patches(all, i as nat),
        decreases n - i,
    {
        assert(all[i as int] == names@[i as int]@);
        match parse_patch(names[i].as_str()) {
            Some(id) => {
                if !is_selected(r.as_slice(), id) {
                    r.push(id);
                }
            },
            None => {},
        }
        i = i + 1;
    }
    if r.len() == 0 {
        let r = vec![PatchId::Minimap, PatchId::Fog, PatchId::Rain];
        assert(r@ =~= default_patches());
        return r;
    }
    r
}

/// Those of the first `n` patches of the list that are selected.
pub open spec fn listed_selection(selected: Seq<PatchId>, n: nat) -> Seq<PatchId>
    decreases n,
{
    if n == 0 {
        Seq::empty()
    } else {
        let before = listed_selection(selected, (n - 1) as nat);
        if selected.contains(named_ids()[n - 1]) {
            before.push(named_ids()[n - 1])
        } else {
            before
        }
    }
}

/// The selected patches in the order of the list.
pub fn in_list_order(selected: &[PatchId]) -> (r: Vec<PatchId>)
    ensures
        r@ == listed_selection(selected@, named_ids().len()),
{
    let ids = every_named_patch();
    let n: usize = ids.len();
    let mut r: Vec<PatchId> = Vec::new();
    let mut i: usize = 0;
    while i < n
        invariant
            i <= n == ids@.len(),
            ids@ == named_ids(),
            r@ == listed_selection(selected@, i as nat),
        decreases n - i,
    {
        if is_selected(selected, ids[i]) {
            r.push(ids[i]);
        }
        i = i + 1;
    }
    r
}

/// The names under which a selection is saved, in the order of the list.
pub fn saved_selection(selected: &[PatchId]) -> (r: Vec<&'static str>)
    ensures
        str_views(r@) == listed_selection(selected@, named_ids().len()).map_values(
            |id: PatchId| name_of(id),
        ),
{
    let ids = in_list_order(selected);
    crate::app::patch_names(ids.as_slice())
}

/// A selection without the camera patch.
pub open spec fn without_camera(s: Seq<PatchId>, n: nat) -> Seq<PatchId>
    decreases n,
{
    if n == 0 {
        Seq::empty()
    } else if s[n - 1] is Camera {
        without_camera(s, (n - 1) as nat)
    } else {
        without_camera(s, (n - 1) as nat).push(s[n - 1])
    }
}

/// The selected patches in the order in which they are applied: that of the list,
/// with the camera last.
pub open spec fn requested(selected: Seq<PatchId>) -> Seq<PatchId> {
    let listed = listed_selection(selected, named_ids().len());
    if listed.contains(PatchId::Camera) {
        without_camera(listed, listed.len()).push(PatchId::Camera)
    } else {
        listed
    }
}

/// Why no patches are requested.
#[derive(Debug, Clone, Copy, PartialEq, Eq, Structural)]
pub enum RequestError {
    NothingSelected,
    /// Texts are to be colored, and no color is enabled.
    NoColorEnabled,
}

impl RequestError {
    /// What the error says.
    pub fn message(self) -> (r: &'static str)
        ensures
            r@ == (match self {
                RequestError::NothingSelected => "Select at least one patch."@,
                RequestError::NoColorEnabled =>
                    "Color mods is selected but no mods are enabled — use Edit colors…"@,
            }),
    {
        match self {
            RequestError::NothingSelected => "Select at least one patch.",
            RequestError::NoColorEnabled =>
                "Color mods is selected but no mods are enabled — use Edit colors…",
        }
    }
}

/// Whether the color of some stat is enabled.
pub open spec fn color_enabled(mods: Seq<ColorModEntry>) -> bool {
    exists|i: int| 0 <= i < mods.len() && (#[trigger] mods[i]).enabled
}

fn has_enabled_color(mods: &Vec<ColorModEntry>) -> (r: bool)
    ensures
        r == color_enabled(mods@),
{
    let n: usize = mods.len();
    let mut i: usize = 0;
    while i < n
        invariant
            i <= n == mods@.len(),
            forall|k: int| 0 <= k < i ==> !(#[trigger] mods@[k]).enabled,
        decreases n - i,
    {
        if mods[i].enabled {
            return true;
        }
        i = i + 1;
    }
    false
}

/// The selected patches in the order in which they are applied. `mods` are the
/// colors of texts.
pub fn requested_patches(selected: &[PatchId], mods: &Vec<ColorModEntry>) -> (r: Result<
    Vec<PatchId>,
    RequestError,
>)
    ensures
        match r {
            Ok(v) => {
                &&& selected@.len() > 0
                &&& selected@.contains(PatchId::ColorMods) ==> color_enabled(mods@)
                &&& v@ == requested(selected@)
            },
            Err(RequestError::NothingSelected) => selected@.len() == 0,
            Err(RequestError::NoColorEnabled) => {
                &&& selected@.contains(PatchId::ColorMods)
                &&& !color_enabled(mods@)
            },
        },
{
    if selected.len() == 0 {
        return Err(RequestError::NothingSelected);
    }
    if is_selected(selected, PatchId::ColorMods) && !has_enabled_color(mods) {
        return Err(RequestError::NoColorEnabled);
    }
    let listed = in_list_order(selected);
    if !is_selected(listed.as_slice(), PatchId::Camera) {
        return Ok(listed);
    }
    let n: usize = listed.len();
    let mut r: Vec<PatchId> = Vec::new();
    let mut i: usize = 0;
    while i < n
        invariant
            i <= n == listed@.len(),
            r@ == without_camera(listed@, i as nat),
        decreases n - i,
    {
        match listed[i] {
            PatchId::Camera => {},
            _ => {
                r.push(listed[i]);
            },
        }
        i = i + 1;
    }
    r.push(PatchId::Camera);
    Ok(r)
}

proof fn lemma_listed_selection(selected: Seq<PatchId>, n: nat, id: PatchId)
    requires
        n <= named_ids().len(),
    ensures
        listed_selection(selected, n).contains(id) <==> selected.contains(id) && exists|k: int|
            0 <= k < n && #[trigger] named_ids()[k] == id,
    decreases n,
{
    if n > 0 {
        lemma_listed_selection(selected, (n - 1) as nat, id);
        let before = listed_selection(selected, (n - 1) as nat);
        let now = listed_selection(selected, n);
        if before.contains(id) {
            let j = choose|j: int| 0 <= j < before.len() && before[j] == id;
            assert(now[j] == id);
        }
        if now.contains(id) && !before.contains(id) {
            assert(named_ids()[n - 1] == id);
        }
        if selected.contains(id) && (exists|k: int| 0 <= k < n && #[trigger] named_ids()[k] == id)
            && !before.contains(id) {
            let k = choose|k: int| 0 <= k < n && #[trigger] named_ids()[k] == id;
            assert(k == n - 1);
            assert(now[before.len() as int] == id);
        }
    }
}

proof fn lemma_without_camera(s: Seq<PatchId>, n: nat, id: PatchId)
    requires
        n <= s.len(),
        id != PatchId::Camera,
    ensures
        without_camera(s, n).contains(id) <==> exists|k: int| 0 <= k < n && #[trigger] s[k] == id,
    decreases n,
{
    if n > 0 {
        lemma_without_camera(s, (n - 1) as nat, id);
        let before = without_camera(s, (n - 1) as nat);
        let now = without_camera(s, n);
        if before.contains(id) {
            let j = choose|j: int| 0 <= j < before.len() && before[j] == id;
            assert(now[j] == id);
        }
        if now.contains(id) && !before.contains(id) {
            assert(s[n - 1] == id);
        }
        if s[n - 1] == id {
            assert(now[before.len() as int] == id);
        }
    }
}

/// What is applied is what is selected, no more and no less; and the camera comes
/// last.
pub proof fn law_request_holds_the_selection(selected: Seq<PatchId>, id: PatchId)
    ensures
        requested(selected).contains(id) <==> selected.contains(id),
        selected.contains(PatchId::Camera) ==> requested(selected).last() == PatchId::Camera,
{
    let n = named_ids().len();
    let k = law_every_patch_is_named(id);
    let c = law_every_patch_is_named(PatchId::Camera);
    lemma_listed_selection(selected, n, id);
    lemma_listed_selection(selected, n, PatchId::Camera);
    let listed = listed_selection(selected, n);
    if listed.contains(PatchId::Camera) {
        let rest = without_camera(listed, listed.len());
        let out = rest.push(PatchId::Camera);
        assert(out[rest.len() as int] == PatchId::Camera);
        if id != PatchId::Camera {
            lemma_without_camera(listed, listed.len(), id);
            if listed.contains(id) {
                let j = choose|j: int| 0 <= j < listed.len() && listed[j] == id;
                assert(listed[j] == id);
                assert(rest.contains(id));
                let m = choose|m: int| 0 <= m < rest.len() && rest[m] == id;
                assert(out[m] == id);
            }
            if out.contains(id) {
                let m = choose|m: int| 0 <= m < out.len() && out[m] == id;
                assert(rest[m] == id);
                assert(rest.contains(id));
            }
        } else {
            assert(out.contains(id));
        }
    }
}

/// Whether all patches of a preset are selected.
pub fn preset_is_active(selected: &[PatchId], patches: &[PatchId]) -> (r: bool)
    ensures
        r == forall|i: int| 0 <= i < patches@.len() ==> selected@.contains(#[trigger] patches@[i]),
{
    let n: usize = patches.len();
    let mut i: usize = 0;
    while i < n
        invariant
            i <= n == patches@.len(),
            forall|k: int| 0 <= k < i ==> selected@.contains(#[trigger] patches@[k]),
        decreases n - i,
    {
        if !is_selected(selected, patches[i]) {
            return false;
        }
        i = i + 1;
    }
    true
}

/// A selection with the first `n` patches added.
pub open spec fn with_patches(selected: Seq<PatchId>, patches: Seq<PatchId>, n: nat) -> Seq<PatchId>
    decreases n,
{
    if n == 0 {
        selected
    } else {
        let before = with_patches(selected, patches, (n - 1) as nat);
        if before.contains(patches[n - 1]) {
            before
        } else {
            before.push(patches[n - 1])
        }
    }
}

/// Adds patches to a selection.
pub fn select_patches(selected: &mut Vec<PatchId>, patches: &[PatchId])
    ensures
        final(selected)@ == with_patches(old(selected)@, patches@, patches@.len()),
{
    let ghost start = selected@;
    let n: usize = patches.len();
    let mut i: usize = 0;
    while i < n
        invariant
            i <= n == patches@.len(),
            selected@ == with_patches(start, patches@, i as nat),
        decreases n - i,
    {
        if !is_selected(selected.as_slice(), patches[i]) {
            selected.push(patches[i]);
        }
        i = i + 1;
    }
}

/// How many of the first `n` patches are selected.
pub open spec fn selected_count(selected: Seq<PatchId>, patches: Seq<PatchId>, n: nat) -> nat
    decreases n,
{
    if n == 0 {
        0
    } else {
        selected_count(selected, patches, (n - 1) as nat) + if selected.contains(patches[n - 1]) {
            1nat
        } else {
            0
        }
    }
}

/// How many patches of a group are selected.
pub fn count_selected(selected: &[PatchId], patches: &[PatchId]) -> (r: usize)
    ensures
        r == selected_count(selected@, patches@, patches@.len()),
{
    let n: usize = patches.len();
    let mut total: usize = 0;
    let mut i: usize = 0;
    while i < n
        invariant
            i <= n == patches@.len(),
            total == selected_count(selected@, patches@, i as nat),
            total <= i,
        decreases n - i,
    {
        if is_selected(selected, patches[i]) {
            total = total + 1;
        }
        i = i + 1;
    }
    total
}

/// The beginning of the text without white space at its front.
pub open spec fn trim_front(s: Seq<char>) -> Seq<char>
    decreases s.len(),
{
    if s.len() > 0 && unicode_whitespace(s[0]) {
        trim_front(s.subrange(1, s.len() as int))
    } else {
        s
    }
}

/// The text without white space at its end.
pub open spec fn trim_back(s: Seq<char>) -> Seq<char>
    decreases s.len(),
{
    if s.len() > 0 && unicode_whitespace(s.last()) {
        trim_back(s.drop_last())
    } else {
        s
    }
}

/// The text without white space at its front and its end.
pub open spec fn trimmed(s: Seq<char>) -> Seq<char> {
    trim_back(trim_front(s))
}

/// The game folder that was entered, if one was.
pub fn entered_game_dir(input: &str) -> (r: Option<String>)
    ensures
        match r {
            Some(dir) => dir@ == trimmed(input@) && dir@.len() > 0,
            None => trimmed(input@).len() == 0,
        },
{
    let chars = chars_of(input);
    let n: usize = chars.len();
    let mut start: usize = 0;
    assert(chars@.subrange(0, n as int) =~= chars@);
    while start < n && is_whitespace(chars[start])
        invariant
            start <= n == chars@.len(),
            trim_front(chars@) == trim_front(chars@.subrange(start as int, n as int)),
        decreases n - start,
    {
        let ghost rest = chars@.subrange(start as int, n as int);
        assert(rest[0] == chars@[start as int]);
        assert(rest.subrange(1, rest.len() as int) =~= chars@.subrange(start + 1, n as int));
        start = start + 1;
    }
    let ghost front = chars@.subrange(start as int, n as int);
    assert(start < n ==> front[0] == chars@[start as int]);
    assert(trim_front(chars@) == front);
    let mut end: usize = n;
    while end > start && is_whitespace(chars[end - 1])
        invariant
            start <= end <= n == chars@.len(),
            front == chars@.subrange(start as int, n as int),
            trim_back(front) == trim_back(chars@.subrange(start as int, end as int)),
        decreases end - start,
    {
        let ghost rest = chars@.subrange(start as int, end as int);
        assert(rest.last() == chars@[end - 1]);
        assert(rest.drop_last() =~= chars@.subrange(start as int, end - 1));
        end = end - 1;
    }
    let ghost kept = chars@.subrange(start as int, end as int);
    assert(end > start ==> kept.last() == chars@[end - 1]);
    assert(trim_back(kept) == kept);
    if start == end {
        return None;
    }
    let part = char_range(chars.as_slice(), start, end);
    Some(string_of(part.as_slice()))
}

/// Which dialogs are open.
#[derive(Debug, Clone, Copy, PartialEq, Eq, Structural)]
pub struct Dialogs {
    pub confirm_apply: bool,
    pub confirm_restore: bool,
    pub game_running: bool,
}

/// What happens to the dialogs.
#[derive(Debug, Clone, Copy, PartialEq, Eq, Structural)]
pub enum DialogEvent {
    /// The button that applies; whether a request can be made.
    ApplyPressed { request_valid: bool },
    RestorePressed,
    /// The dialog was confirmed; whether the game is running, and whether a
    /// request can be made.
    ApplyConfirmed { game_running: bool, request_valid: bool },
    RestoreConfirmed { game_running: bool },
    ApplyDismissed,
    RestoreDismissed,
    GameRunningDismissed,
}

/// What the event leads to.
#[derive(Debug, Clone, Copy, PartialEq, Eq, Structural)]
pub enum DialogAction {
    Nothing,
    Apply,
    Restore,
    /// The error of the request is shown.
    ShowRequestError,
}

/// The dialogs after an event, and what it leads to. Nothing is applied or
/// restored while the game is running.
pub open spec fn dialogs_after(d: Dialogs, e: DialogEvent) -> (Dialogs, DialogAction) {
    match e {
        DialogEvent::ApplyPressed { request_valid } => if request_valid {
            (Dialogs { confirm_apply: true, ..d }, DialogAction::Nothing)
        } else {
            (d, DialogAction::ShowRequestError)
        },
        DialogEvent::RestorePressed => (
            Dialogs { confirm_restore: true, ..d },
            DialogAction::Nothing,
        ),
        DialogEvent::ApplyConfirmed { game_running, request_valid } => if game_running {
            (Dialogs { confirm_apply: false, game_running: true, ..d }, DialogAction::Nothing)
        } else if request_valid {
            (Dialogs { confirm_apply: false, ..d }, DialogAction::Apply)
        } else {
            (Dialogs { confirm_apply: false, ..d }, DialogAction::ShowRequestError)
        },
        DialogEvent::RestoreConfirmed { game_running } => if game_running {
            (Dialogs { confirm_restore: false, game_running: true, ..d }, DialogAction::Nothing)
        } else {
            (Dialogs { confirm_restore: false, ..d }, DialogAction::Restore)
        },
        DialogEvent::ApplyDismissed => (
            Dialogs { confirm_apply: false, ..d },
            DialogAction::Nothing,
        ),
        DialogEvent::RestoreDismissed => (
            Dialogs { confirm_restore: false, ..d },
            DialogAction::Nothing,
        ),
        DialogEvent::GameRunningDismissed => (
            Dialogs { game_running: false, ..d },
            DialogAction::Nothing,
        ),
    }
}

impl Dialogs {
    /// No dialog is open.
    pub fn new() -> (r: Dialogs)
        ensures
            !r.confirm_apply,
            !r.confirm_restore,
            !r.game_running,
    {
        Dialogs { confirm_apply: false, confirm_restore: false, game_running: false }
    }

    /// Takes an event and says what it leads to.
    pub fn handle(&mut self, event: DialogEvent) -> (r: DialogAction)
        ensures
            (*final(self), r) == dialogs_after(*old(self), event),
    {
        match event {
            DialogEvent::ApplyPressed { request_valid } => {
                if request_valid {
                    self.confirm_apply = true;
                    DialogAction::Nothing
                } else {
                    DialogAction::ShowRequestError
                }
            },
            DialogEvent::RestorePressed => {
                self.confirm_restore = true;
                DialogAction::Nothing
            },
            DialogEvent::ApplyConfirmed { game_running, request_valid } => {
                self.confirm_apply = false;
                if game_running {
                    self.game_running = true;
                    DialogAction::Nothing
                } else if request_valid {
                    DialogAction::Apply
                } else {
                    DialogAction::ShowRequestError
                }
            },
            DialogEvent::RestoreConfirmed { game_running } => {
                self.confirm_restore = false;
                if game_running {
                    self.game_running = true;
                    DialogAction::Nothing
                } else {
                    DialogAction::Restore
                }
            },
            DialogEvent::ApplyDismissed => {
                self.confirm_apply = false;
                DialogAction::Nothing
            },
            DialogEvent::RestoreDismissed => {
                self.confirm_restore = false;
                DialogAction::Nothing
            },
            DialogEvent::GameRunningDismissed => {
                self.game_running = false;
                DialogAction::Nothing
            },
        }
    }
}

/// Nothing is applied or restored without a confirmation, nor while the game is
/// running.
pub proof fn law_nothing_starts_unconfirmed(d: Dialogs, e: DialogEvent)
    ensures
        dialogs_after(d, e).1 is Apply ==> e == (DialogEvent::ApplyConfirmed {
            game_running: false,
            request_valid: true,
        }),
        dialogs_after(d, e).1 is Restore ==> e == (DialogEvent::RestoreConfirmed {
            game_running: false,
        }),
{
}

/// Whether the buttons that apply and restore can be pressed. Without a known
/// state one may try to apply.
pub fn enabled_actions(state: Option<PatchState>, busy: bool) -> (r: (bool, bool))
    ensures
        r.0 == (!busy && match state {
            Some(s) => !(s is Patched || s is PatchedMissingBackup),
            None => true,
        }),
        r.1 == (!busy && state == Some(PatchState::Patched)),
{
    match state {
        Some(s) => (!s.is_currently_patched() && !busy, s.can_restore() && !busy),
        None => (!busy, false),
    }
}

} // verus!
