//! The patches and presets that there are.

use crate::text::{chars_of, lower, lower_all, lower_chars, same_chars};
use vstd::prelude::*;

verus! {

/// A patch.
#[derive(Debug, Clone, Copy, PartialEq, Eq, Hash, Structural)]
pub enum PatchId {
    Camera,
    Minimap,
    AtlasFog,
    Fog,
    Rain,
    Clouds,
    EnvParticles,
    Shadow,
    Light,
    Delirium,
    Particles,
    Effects,
    DisableSounds,
    SkillSounds,
    MonsterSounds,
    MtxSoft,
    /// Hides the world. Which files that takes is not known yet: the patch has a
    /// name but is not listed, it is for no file, and selecting it is answered by
    /// saying so.
    BlackScreen,
    /// Colors the texts of modifiers. For no file yet, as above.
    ColorMods,
    /// Keeps the health bars of monsters visible. For no file yet, as above.
    MonsterHpBar,
}

/// A patch, its name and what it does.
#[derive(Debug, Clone)]
pub struct PatchInfo {
    pub id: PatchId,
    pub name: &'static str,
    pub description: &'static str,
}

pub struct PatchView {
    pub id: PatchId,
    pub name: Seq<char>,
    pub description: Seq<char>,
}

impl View for PatchInfo {
    type V = PatchView;

    open spec fn view(&self) -> PatchView {
        PatchView { id: self.id, name: self.name@, description: self.description@ }
    }
}

/// A named selection of patches.
#[derive(Debug, Clone)]
pub struct PresetInfo {
    pub name: &'static str,
    pub description: &'static str,
    pub patches: Vec<PatchId>,
}

pub struct PresetView {
    pub name: Seq<char>,
    pub description: Seq<char>,
    pub patches: Seq<PatchId>,
}

impl View for PresetInfo {
    type V = PresetView;

    open spec fn view(&self) -> PresetView {
        PresetView { name: self.name@, description: self.description@, patches: self.patches@ }
    }
}

/// The name of a patch.
pub open spec fn name_of(id: PatchId) -> Seq<char> {
    match id {
        PatchId::Camera => "camera"@,
        PatchId::Minimap => "minimap"@,
        PatchId::AtlasFog => "atlas-fog"@,
        PatchId::Fog => "fog"@,
        PatchId::Rain => "rain"@,
        PatchId::Clouds => "clouds"@,
        PatchId::EnvParticles => "env-particles"@,
        PatchId::Shadow => "shadow"@,
        PatchId::Light => "light"@,
        PatchId::Delirium => "delirium"@,
        PatchId::Particles => "particles"@,
        PatchId::Effects => "effects"@,
        PatchId::DisableSounds => "disable-sounds"@,
        PatchId::SkillSounds => "skill-sounds"@,
        PatchId::MonsterSounds => "monster-sounds"@,
        PatchId::MtxSoft => "mtx-soft"@,
        PatchId::BlackScreen => "black-screen"@,
        PatchId::ColorMods => "color-mods"@,
        PatchId::MonsterHpBar => "monster-hp-bar"@,
    }
}

/// What a patch does, in words.
pub open spec fn description_of(id: PatchId) -> Seq<char> {
    match id {
        PatchId::Camera => "Adjust camera zoom and remove camera reset calls."@,
        PatchId::Minimap => "Reveal more of the minimap by default."@,
        PatchId::AtlasFog => "Remove Atlas fog of war graph nodes."@,
        PatchId::Fog => "Disable environment fog."@,
        PatchId::Rain => "Set rain intensity to zero."@,
        PatchId::Clouds => "Set cloud intensity to zero."@,
        PatchId::EnvParticles => "Disable environment particles and related effects."@,
        PatchId::Shadow => "Disable shadows in environment settings."@,
        PatchId::Light => "Disable selected environment lighting systems."@,
        PatchId::Delirium => "Disable delirium/affliction environment effects."@,
        PatchId::Particles => "Blank particle effect files."@,
        PatchId::Effects => "Strip nonessential client effect blocks."@,
        PatchId::DisableSounds => "Silence sounds by emptying SoundEvents/SoundParams blocks."@,
        PatchId::SkillSounds => "Silence skill-effect sounds (empty SoundEvents/SoundParams)."@,
        PatchId::MonsterSounds => "Silence monster sounds (empty SoundEvents/SoundParams)."@,
        PatchId::MtxSoft => "Blank microtransaction effect/particle files."@,
        PatchId::BlackScreen => "Hide the world; the UI, item labels, health bars, and minimap stay visible."@,
        PatchId::ColorMods => "Color modifier text on waystones, items, and tablets."@,
        PatchId::MonsterHpBar => "Keep monster health bars visible."@,
    }
}

/// The patches whose files are known, in the order in which they are listed.
pub open spec fn patch_ids() -> Seq<PatchId> {
    seq![
        PatchId::Camera,
        PatchId::Minimap,
        PatchId::AtlasFog,
        PatchId::Fog,
        PatchId::Rain,
        PatchId::Clouds,
        PatchId::EnvParticles,
        PatchId::Shadow,
        PatchId::Light,
        PatchId::Delirium,
        PatchId::Particles,
        PatchId::Effects,
        PatchId::DisableSounds,
        PatchId::SkillSounds,
        PatchId::MonsterSounds,
        PatchId::MtxSoft,
    ]
}

/// Every patch that has a name: those that are listed, then those whose files are
/// not known yet.
pub open spec fn named_ids() -> Seq<PatchId> {
    patch_ids() + seq![PatchId::BlackScreen, PatchId::ColorMods, PatchId::MonsterHpBar]
}

pub open spec fn patch_views(v: Seq<PatchInfo>) -> Seq<PatchView> {
    v.map_values(|p: PatchInfo| p@)
}

/// A patch as it is listed.
pub open spec fn listed(id: PatchId) -> PatchView {
    PatchView { id, name: name_of(id), description: description_of(id) }
}

/// The patches with their names and descriptions.
pub open spec fn patch_list() -> Seq<PatchView> {
    patch_ids().map_values(|id: PatchId| listed(id))
}

/// The name of a patch.
pub fn patch_label(id: PatchId) -> (r: &'static str)
    ensures
        r@ == name_of(id),
{
    match id {
        PatchId::Camera => "camera",
        PatchId::Minimap => "minimap",
        PatchId::AtlasFog => "atlas-fog",
        PatchId::Fog => "fog",
        PatchId::Rain => "rain",
        PatchId::Clouds => "clouds",
        PatchId::EnvParticles => "env-particles",
        PatchId::Shadow => "shadow",
        PatchId::Light => "light",
        PatchId::Delirium => "delirium",
        PatchId::Particles => "particles",
        PatchId::Effects => "effects",
        PatchId::DisableSounds => "disable-sounds",
        PatchId::SkillSounds => "skill-sounds",
        PatchId::MonsterSounds => "monster-sounds",
        PatchId::MtxSoft => "mtx-soft",
        PatchId::BlackScreen => "black-screen",
        PatchId::ColorMods => "color-mods",
        PatchId::MonsterHpBar => "monster-hp-bar",
    }
}

fn patch_description(id: PatchId) -> (r: &'static str)
    ensures
        r@ == description_of(id),
{
    match id {
        PatchId::Camera => "Adjust camera zoom and remove camera reset calls.",
        PatchId::Minimap => "Reveal more of the minimap by default.",
        PatchId::AtlasFog => "Remove Atlas fog of war graph nodes.",
        PatchId::Fog => "Disable environment fog.",
        PatchId::Rain => "Set rain intensity to zero.",
        PatchId::Clouds => "Set cloud intensity to zero.",
        PatchId::EnvParticles => "Disable environment particles and related effects.",
        PatchId::Shadow => "Disable shadows in environment settings.",
        PatchId::Light => "Disable selected environment lighting systems.",
        PatchId::Delirium => "Disable delirium/affliction environment effects.",
        PatchId::Particles => "Blank particle effect files.",
        PatchId::Effects => "Strip nonessential client effect blocks.",
        PatchId::DisableSounds => "Silence sounds by emptying SoundEvents/SoundParams blocks.",
        PatchId::SkillSounds => "Silence skill-effect sounds (empty SoundEvents/SoundParams).",
        PatchId::MonsterSounds => "Silence monster sounds (empty SoundEvents/SoundParams).",
        PatchId::MtxSoft => "Blank microtransaction effect/particle files.",
        PatchId::BlackScreen => "Hide the world; the UI, item labels, health bars, and minimap stay visible.",
        PatchId::ColorMods => "Color modifier text on waystones, items, and tablets.",
        PatchId::MonsterHpBar => "Keep monster health bars visible.",
    }
}

/// Every patch whose files are known, in the order in which they are listed.
pub fn every_patch() -> (r: Vec<PatchId>)
    ensures
        r@ == patch_ids(),
{
    let r = vec![
        PatchId::Camera,
        PatchId::Minimap,
        PatchId::AtlasFog,
        PatchId::Fog,
        PatchId::Rain,
        PatchId::Clouds,
        PatchId::EnvParticles,
        PatchId::Shadow,
        PatchId::Light,
        PatchId::Delirium,
        PatchId::Particles,
        PatchId::Effects,
        PatchId::DisableSounds,
        PatchId::SkillSounds,
        PatchId::MonsterSounds,
        PatchId::MtxSoft,
    ];
    assert(r@ =~= patch_ids());
    r
}

/// Every patch that has a name.
pub fn every_named_patch() -> (r: Vec<PatchId>)
    ensures
        r@ == named_ids(),
{
    let mut r = every_patch();
    r.push(PatchId::BlackScreen);
    r.push(PatchId::ColorMods);
    r.push(PatchId::MonsterHpBar);
    assert(r@ =~= named_ids());
    r
}

/// Every listed patch with its name and description.
pub fn all_patches() -> (r: Vec<PatchInfo>)
    ensures
        patch_views(r@) == patch_list(),
{
    let ids = every_patch();
    let n: usize = ids.len();
    let mut r: Vec<PatchInfo> = Vec::new();
    let mut i: usize = 0;
    while i < n
        invariant
            i <= n == ids@.len(),
            ids@ == patch_ids(),
            patch_views(r@) == patch_list().take(i as int),
        decreases n - i,
    {
        let id = ids[i];
        let ghost before = patch_views(r@);
        r.push(PatchInfo { id, name: patch_label(id), description: patch_description(id) });
        i = i + 1;
        assert(patch_views(r@) =~= before.push(listed(id)));
        assert(patch_list()[i - 1] == listed(id));
        assert(patch_views(r@) =~= patch_list().take(i as int));
    }
    assert(patch_views(r@) =~= patch_list());
    r
}

/// The presets.
pub open spec fn preset_list() -> Seq<PresetView> {
    seq![
        PresetView {
            name: "maps-revealed"@,
            description: "Reveal minimap and Atlas fog."@,
            patches: seq![PatchId::Minimap, PatchId::AtlasFog],
        },
        PresetView {
            name: "performance"@,
            description: "Balanced visual cleanup for performance."@,
            patches: seq![
                PatchId::Fog,
                PatchId::Rain,
                PatchId::Clouds,
                PatchId::EnvParticles,
                PatchId::Delirium,
                PatchId::Particles,
                PatchId::Effects,
            ],
        },
        PresetView {
            name: "optimal"@,
            description: "Safe recommended mix of map and environment patches."@,
            patches: seq![
                PatchId::Minimap,
                PatchId::AtlasFog,
                PatchId::Fog,
                PatchId::Rain,
                PatchId::Clouds,
                PatchId::EnvParticles,
                PatchId::Effects,
            ],
        },
        PresetView {
            name: "daylight"@,
            description: "Remove darkness, fog, shadows, and heavy environment particles."@,
            patches: seq![
                PatchId::Fog,
                PatchId::Shadow,
                PatchId::Light,
                PatchId::EnvParticles,
                PatchId::Delirium,
            ],
        },
        PresetView {
            name: "high-performance"@,
            description: "Aggressive performance preset with effects, particles, sounds, and MTX reduced."@,
            patches: seq![
                PatchId::Fog,
                PatchId::Rain,
                PatchId::Clouds,
                PatchId::EnvParticles,
                PatchId::Delirium,
                PatchId::Particles,
                PatchId::Effects,
                PatchId::DisableSounds,
                PatchId::MtxSoft,
            ],
        },
        PresetView {
            name: "black-screen"@,
            description: "Hide the world and keep the UI visible."@,
            patches: seq![PatchId::BlackScreen],
        },
        PresetView {
            name: "check-all"@,
            description: "Select every ported patch."@,
            patches: patch_ids(),
        },
    ]
}

pub open spec fn preset_views(v: Seq<PresetInfo>) -> Seq<PresetView> {
    v.map_values(|p: PresetInfo| p@)
}

/// Every preset.
pub fn all_presets() -> (r: Vec<PresetInfo>)
    ensures
        preset_views(r@) == preset_list(),
{
    let mut r: Vec<PresetInfo> = Vec::new();
    let patches = vec![PatchId::Minimap, PatchId::AtlasFog];
    assert(patches@ =~= preset_list()[0].patches);
    r.push(
        PresetInfo {
            name: "maps-revealed",
            description: "Reveal minimap and Atlas fog.",
            patches,
        },
    );
    let patches = vec![
        PatchId::Fog,
        PatchId::Rain,
        PatchId::Clouds,
        PatchId::EnvParticles,
        PatchId::Delirium,
        PatchId::Particles,
        PatchId::Effects,
    ];
    assert(patches@ =~= preset_list()[1].patches);
    r.push(
        PresetInfo {
            name: "performance",
            description: "Balanced visual cleanup for performance.",
            patches,
        },
    );
    let patches = vec![
        PatchId::Minimap,
        PatchId::AtlasFog,
        PatchId::Fog,
        PatchId::Rain,
        PatchId::Clouds,
        PatchId::EnvParticles,
        PatchId::Effects,
    ];
    assert(patches@ =~= preset_list()[2].patches);
    r.push(
        PresetInfo {
            name: "optimal",
            description: "Safe recommended mix of map and environment patches.",
            patches,
        },
    );
    let patches = vec![
        PatchId::Fog,
        PatchId::Shadow,
        PatchId::Light,
        PatchId::EnvParticles,
        PatchId::Delirium,
    ];
    assert(patches@ =~= preset_list()[3].patches);
    r.push(
        PresetInfo {
            name: "daylight",
            description: "Remove darkness, fog, shadows, and heavy environment particles.",
            patches,
        },
    );
    let patches = vec![
        PatchId::Fog,
        PatchId::Rain,
        PatchId::Clouds,
        PatchId::EnvParticles,
        PatchId::Delirium,
        PatchId::Particles,
        PatchId::Effects,
        PatchId::DisableSounds,
        PatchId::MtxSoft,
    ];
    assert(patches@ =~= preset_list()[4].patches);
    r.push(
        PresetInfo {
            name: "high-performance",
            description: "Aggressive performance preset with effects, particles, sounds, and MTX reduced.",
            patches,
        },
    );
    let patches = vec![PatchId::BlackScreen];
    assert(patches@ =~= preset_list()[5].patches);
    r.push(
        PresetInfo {
            name: "black-screen",
            description: "Hide the world and keep the UI visible.",
            patches,
        },
    );
    r.push(
        PresetInfo {
            name: "check-all",
            description: "Select every ported patch.",
            patches: every_patch(),
        },
    );
    assert(preset_views(r@) =~= preset_list());
    r
}

/// Whether two names are the same but for ASCII case.
pub open spec fn same_name(a: Seq<char>, b: Seq<char>) -> bool {
    lower_all(a) == lower_all(b)
}

/// Whether two names are the same but for ASCII case.
pub fn eq_ignore_ascii_case(a: &str, b: &str) -> (r: bool)
    ensures
        r == same_name(a@, b@),
{
    let x = chars_of(a);
    let y = chars_of(b);
    let x = lower_chars(x.as_slice());
    let y = lower_chars(y.as_slice());
    same_chars(x.as_slice(), y.as_slice())
}

/// The first patch from `i` on with that name.
pub open spec fn patch_named(name: Seq<char>, i: int) -> Option<PatchId>
    decreases named_ids().len() - i,
{
    if i < 0 || i >= named_ids().len() {
        None
    } else if same_name(name_of(named_ids()[i]), name) {
        Some(named_ids()[i])
    } else {
        patch_named(name, i + 1)
    }
}

/// The patch that a name stands for. Particles go by a second name.
pub open spec fn parsed_patch(name: Seq<char>) -> Option<PatchId> {
    if same_name(name, "zero-particles"@) {
        Some(PatchId::Particles)
    } else {
        patch_named(name, 0)
    }
}

/// The patch that a name stands for.
pub fn parse_patch(name: &str) -> (r: Option<PatchId>)
    ensures
        r == parsed_patch(name@),
{
    if eq_ignore_ascii_case(name, "zero-particles") {
        return Some(PatchId::Particles);
    }
    let ids = every_named_patch();
    let n: usize = ids.len();
    let mut i: usize = 0;
    while i < n
        invariant
            i <= n == ids@.len(),
            ids@ == named_ids(),
            !same_name(name@, "zero-particles"@),
            patch_named(name@, 0) == patch_named(name@, i as int),
        decreases n - i,
    {
        let id = ids[i];
        if eq_ignore_ascii_case(patch_label(id), name) {
            return Some(id);
        }
        i = i + 1;
    }
    None
}

/// The first preset from `i` on with that name.
pub open spec fn preset_named(name: Seq<char>, i: int) -> Option<PresetView>
    decreases preset_list().len() - i,
{
    if i < 0 || i >= preset_list().len() {
        None
    } else if same_name(preset_list()[i].name, name) {
        Some(preset_list()[i])
    } else {
        preset_named(name, i + 1)
    }
}

/// The preset of that name.
pub fn parse_preset(name: &str) -> (r: Option<PresetInfo>)
    ensures
        match r {
            Some(p) => preset_named(name@, 0) == Some(p@),
            None => preset_named(name@, 0) is None,
        },
{
    let mut presets = all_presets();
    let n: usize = presets.len();
    let mut i: usize = 0;
    while i < n
        invariant
            i <= n == presets@.len(),
            preset_views(presets@) == preset_list(),
            preset_named(name@, 0) == preset_named(name@, i as int),
        decreases n - i,
    {
        assert(preset_views(presets@)[i as int] == presets@[i as int]@);
        if eq_ignore_ascii_case(presets[i].name, name) {
            return Some(presets.swap_remove(i));
        }
        i = i + 1;
    }
    None
}

/// The patch with its name and description.
pub fn patch_info(id: PatchId) -> (r: Option<PatchInfo>)
    ensures
        r is Some,
        r->0@ == listed(id),
{
    Some(PatchInfo { id, name: patch_label(id), description: patch_description(id) })
}

/// The first `n` patches of a selection without those that came before.
pub open spec fn uniques(s: Seq<PatchId>, n: nat) -> Seq<PatchId>
    decreases n,
{
    if n == 0 {
        Seq::empty()
    } else {
        let front = uniques(s, (n - 1) as nat);
        if front.contains(s[n - 1]) {
            front
        } else {
            front.push(s[n - 1])
        }
    }
}

/// Whether a patch is selected.
pub fn is_selected(patches: &[PatchId], id: PatchId) -> (r: bool)
    ensures
        r == patches@.contains(id),
{
    let n: usize = patches.len();
    let mut i: usize = 0;
    while i < n
        invariant
            i <= n == patches@.len(),
            forall|k: int| 0 <= k < i ==> #[trigger] patches@[k] != id,
        decreases n - i,
    {
        if patches[i] == id {
            return true;
        }
        i = i + 1;
    }
    false
}

/// A selection without repetitions; what came first stays first.
pub fn unique_patches(patches: &[PatchId]) -> (r: Vec<PatchId>)
    ensures
        r@ == uniques(patches@, patches@.len()),
{
    let n: usize = patches.len();
    let mut r: Vec<PatchId> = Vec::new();
    let mut i: usize = 0;
    while i < n
        invariant
            i <= n == patches@.len(),
            r@ == uniques(patches@, i as nat),
        decreases n - i,
    {
        if !is_selected(r.as_slice(), patches[i]) {
            r.push(patches[i]);
        }
        i = i + 1;
    }
    r
}

/// A selection without repetitions holds what the selection holds, each once, in
/// the order of the first occurrences.
pub proof fn law_unique_patches_hold_each_once(s: Seq<PatchId>, n: nat)
    requires
        n <= s.len(),
    ensures
        uniques(s, n).no_duplicates(),
        forall|id: PatchId| #[trigger]
            uniques(s, n).contains(id) <==> exists|k: int| 0 <= k < n && #[trigger] s[k] == id,
        uniques(s, n).len() <= n,
    decreases n,
{
    if n > 0 {
        let front = uniques(s, (n - 1) as nat);
        law_unique_patches_hold_each_once(s, (n - 1) as nat);
        let all = uniques(s, n);
        assert forall|id: PatchId| #[trigger] all.contains(id) <==> exists|k: int|
            0 <= k < n && #[trigger] s[k] == id by {
            if all.contains(id) {
                if !front.contains(id) {
                    assert(s[n - 1] == id);
                }
            }
            if exists|k: int| 0 <= k < n && #[trigger] s[k] == id {
                let k = choose|k: int| 0 <= k < n && #[trigger] s[k] == id;
                if k < n - 1 {
                    assert(front.contains(id));
                    let j = choose|j: int| 0 <= j < front.len() && front[j] == id;
                    assert(all[j] == id);
                } else if !front.contains(id) {
                    assert(all[front.len() as int] == id);
                } else {
                    let j = choose|j: int| 0 <= j < front.len() && front[j] == id;
                    assert(all[j] == id);
                }
            }
        }
    }
}

/// A selection without repetitions stays as it is.
pub proof fn law_unique_patches_stay(s: Seq<PatchId>, n: nat)
    requires
        n <= s.len(),
        s.no_duplicates(),
    ensures
        uniques(s, n) == s.take(n as int),
    decreases n,
{
    if n > 0 {
        law_unique_patches_stay(s, (n - 1) as nat);
        let front = s.take(n - 1);
        assert(!front.contains(s[n - 1]));
        assert(front.push(s[n - 1]) =~= s.take(n as int));
    } else {
        assert(uniques(s, 0) =~= s.take(0));
    }
}

/// What tells the names of the patches apart: their length, the first two letters
/// and the last.
spec fn name_key(id: PatchId) -> (nat, char, char, char) {
    match id {
        PatchId::Camera => (6, 'c', 'a', 'a'),
        PatchId::Minimap => (7, 'm', 'i', 'p'),
        PatchId::AtlasFog => (9, 'a', 't', 'g'),
        PatchId::Fog => (3, 'f', 'o', 'g'),
        PatchId::Rain => (4, 'r', 'a', 'n'),
        PatchId::Clouds => (6, 'c', 'l', 's'),
        PatchId::EnvParticles => (13, 'e', 'n', 's'),
        PatchId::Shadow => (6, 's', 'h', 'w'),
        PatchId::Light => (5, 'l', 'i', 't'),
        PatchId::Delirium => (8, 'd', 'e', 'm'),
        PatchId::Particles => (9, 'p', 'a', 's'),
        PatchId::Effects => (7, 'e', 'f', 's'),
        PatchId::DisableSounds => (14, 'd', 'i', 's'),
        PatchId::SkillSounds => (12, 's', 'k', 's'),
        PatchId::MonsterSounds => (14, 'm', 'o', 's'),
        PatchId::MtxSoft => (8, 'm', 't', 't'),
        PatchId::BlackScreen => (12, 'b', 'l', 'n'),
        PatchId::ColorMods => (10, 'c', 'o', 's'),
        PatchId::MonsterHpBar => (14, 'm', 'o', 'r'),
    }
}

proof fn lemma_name_key(id: PatchId)
    ensures
        name_of(id).len() == name_key(id).0,
        lower(name_of(id)[0]) == name_key(id).1,
        lower(name_of(id)[1]) == name_key(id).2,
        lower(name_of(id).last()) == name_key(id).3,
        name_key(id).0 >= 2,
{
    reveal_strlit("camera");
    reveal_strlit("minimap");
    reveal_strlit("atlas-fog");
    reveal_strlit("fog");
    reveal_strlit("rain");
    reveal_strlit("clouds");
    reveal_strlit("env-particles");
    reveal_strlit("shadow");
    reveal_strlit("light");
    reveal_strlit("delirium");
    reveal_strlit("particles");
    reveal_strlit("effects");
    reveal_strlit("disable-sounds");
    reveal_strlit("skill-sounds");
    reveal_strlit("monster-sounds");
    reveal_strlit("mtx-soft");
    reveal_strlit("black-screen");
    reveal_strlit("color-mods");
    reveal_strlit("monster-hp-bar");
}

proof fn lemma_same_name(a: Seq<char>, b: Seq<char>)
    requires
        same_name(a, b),
    ensures
        a.len() == b.len(),
        forall|k: int| 0 <= k < a.len() ==> lower(#[trigger] a[k]) == lower(b[k]),
{
    assert(lower_all(a).len() == a.len());
    assert(lower_all(b).len() == b.len());
    assert forall|k: int| 0 <= k < a.len() implies lower(#[trigger] a[k]) == lower(b[k]) by {
        assert(lower_all(a)[k] == lower(a[k]));
        assert(lower_all(b)[k] == lower(b[k]));
    }
}

proof fn lemma_names_differ(a: PatchId, b: PatchId)
    requires
        a != b,
    ensures
        !same_name(name_of(a), name_of(b)),
{
    lemma_name_key(a);
    lemma_name_key(b);
    if same_name(name_of(a), name_of(b)) {
        lemma_same_name(name_of(a), name_of(b));
        let last = name_of(a).len() - 1;
        assert(lower(name_of(a)[last]) == lower(name_of(b)[last]));
    }
}

proof fn lemma_patch_named(id: PatchId, i: int, k: int)
    requires
        0 <= i <= k < named_ids().len(),
        named_ids()[k] == id,
        named_ids().no_duplicates(),
    ensures
        patch_named(name_of(id), i) == Some(id),
    decreases k - i,
{
    if i < k {
        lemma_names_differ(named_ids()[i], id);
        lemma_patch_named(id, i + 1, k);
    }
}

/// Every patch has a name.
pub proof fn law_every_patch_is_named(id: PatchId) -> (k: int)
    ensures
        0 <= k < named_ids().len(),
        named_ids()[k] == id,
        named_ids().no_duplicates(),
{
    match id {
        PatchId::Camera => 0,
        PatchId::Minimap => 1,
        PatchId::AtlasFog => 2,
        PatchId::Fog => 3,
        PatchId::Rain => 4,
        PatchId::Clouds => 5,
        PatchId::EnvParticles => 6,
        PatchId::Shadow => 7,
        PatchId::Light => 8,
        PatchId::Delirium => 9,
        PatchId::Particles => 10,
        PatchId::Effects => 11,
        PatchId::DisableSounds => 12,
        PatchId::SkillSounds => 13,
        PatchId::MonsterSounds => 14,
        PatchId::MtxSoft => 15,
        PatchId::BlackScreen => 16,
        PatchId::ColorMods => 17,
        PatchId::MonsterHpBar => 18,
    }
}

/// The name of a patch stands for the patch, in whatever case it is written.
pub proof fn law_names_stand_for_their_patches(id: PatchId, name: Seq<char>)
    requires
        same_name(name, name_of(id)),
    ensures
        parsed_patch(name) == Some(id),
{
    reveal_strlit("zero-particles");
    let k = law_every_patch_is_named(id);
    lemma_patch_named(id, 0, k);
    lemma_patch_named_case(name, name_of(id), 0);
    lemma_name_key(id);
    if same_name(name, "zero-particles"@) {
        lemma_same_name(name_of(id), "zero-particles"@);
    }
}

proof fn lemma_patch_named_case(a: Seq<char>, b: Seq<char>, i: int)
    requires
        same_name(a, b),
        0 <= i,
    ensures
        patch_named(a, i) == patch_named(b, i),
    decreases named_ids().len() - i,
{
    if i < named_ids().len() {
        lemma_patch_named_case(a, b, i + 1);
    }
}

} // verus!
