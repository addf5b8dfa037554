//! How much of an effect is kept, for each effect that is not treated as usual.

use crate::order::{
    lemma_before_irreflexive, lemma_before_transitive, order_of, text_before, TextOrder,
};
use crate::text::{chars_of, lower_all, lower_chars, string_of};
use vstd::prelude::*;

verus! {

/// How much of an effect is kept.
#[derive(Debug, Clone, Copy, PartialEq, Eq, Structural)]
pub enum EffectLevel {
    /// As usual: reduced.
    Reduced,
    /// As the game has it.
    Full,
}

/// The level of one effect.
#[derive(Debug)]
pub struct EffectOverride {
    pub key: String,
    pub level: EffectLevel,
}

pub struct OverrideView {
    pub key: Seq<char>,
    pub level: EffectLevel,
}

impl View for EffectOverride {
    type V = OverrideView;

    open spec fn view(&self) -> OverrideView {
        OverrideView { key: self.key@, level: self.level }
    }
}

pub open spec fn override_views(v: Seq<EffectOverride>) -> Seq<OverrideView> {
    v.map_values(|o: EffectOverride| o@)
}

/// Whether the keys come in order, each once.
pub open spec fn in_order(s: Seq<OverrideView>) -> bool {
    forall|i: int, j: int|
        0 <= i < j < s.len() ==> text_before((#[trigger] s[i]).key, (#[trigger] s[j]).key)
}

/// The levels of the first `n` entries by key.
pub open spec fn level_map(s: Seq<OverrideView>, n: nat) -> Map<Seq<char>, EffectLevel>
    decreases n,
{
    if n == 0 {
        Map::empty()
    } else {
        level_map(s, (n - 1) as nat).insert(s[n - 1].key, s[n - 1].level)
    }
}

/// The levels of effects. The entries are kept in the order of their keys.
#[derive(Debug)]
pub struct Overrides {
    pub entries: Vec<EffectOverride>,
}

impl View for Overrides {
    type V = Map<Seq<char>, EffectLevel>;

    open spec fn view(&self) -> Map<Seq<char>, EffectLevel> {
        level_map(override_views(self.entries@), self.entries@.len())
    }
}

proof fn lemma_level_map(s: Seq<OverrideView>, n: nat, key: Seq<char>)
    requires
        n <= s.len(),
        in_order(s),
    ensures
        level_map(s, n).contains_key(key) <==> exists|i: int| 0 <= i < n && (#[trigger] s[i]).key
            == key,
        forall|i: int| 0 <= i < n && (#[trigger] s[i]).key == key ==> level_map(s, n)[key]
            == s[i].level,
    decreases n,
{
    if n > 0 {
        lemma_level_map(s, (n - 1) as nat, key);
        lemma_before_irreflexive(key);
        assert forall|i: int| 0 <= i < n && (#[trigger] s[i]).key == key implies level_map(
            s,
            n,
        )[key] == s[i].level by {
            if i < n - 1 {
                assert(text_before(s[i].key, s[n - 1].key));
            }
        }
        if level_map(s, n).contains_key(key) && s[n - 1].key != key {
            assert(level_map(s, (n - 1) as nat).contains_key(key));
        }
        if s[n - 1].key == key {
            assert(level_map(s, n).contains_key(key));
        }
    }
}

impl Overrides {
    /// Whether the entries come in the order of their keys, each once.
    pub open spec fn wf(&self) -> bool {
        in_order(override_views(self.entries@))
    }

    /// No overrides.
    pub fn new() -> (r: Overrides)
        ensures
            r.wf(),
            r@ == Map::<Seq<char>, EffectLevel>::empty(),
    {
        let r = Overrides { entries: Vec::new() };
        assert(override_views(r.entries@) =~= Seq::<OverrideView>::empty());
        r
    }

    /// The first entry whose key does not come before `key`, and whether it is
    /// that of `key`.
    fn place(&self, key: &[char]) -> (r: (usize, bool))
        requires
            self.wf(),
        ensures
            r.0 <= self.entries@.len(),
            forall|i: int|
                0 <= i < r.0 ==> text_before((#[trigger] override_views(self.entries@)[i]).key, key@),
            r.1 ==> r.0 < self.entries@.len() && override_views(self.entries@)[r.0 as int].key
                == key@,
            !r.1 ==> forall|i: int|
                r.0 <= i < self.entries@.len() ==> text_before(
                    key@,
                    (#[trigger] override_views(self.entries@)[i]).key,
                ),
    {
        let ghost s = override_views(self.entries@);
        let n: usize = self.entries.len();
        let mut i: usize = 0;
        while i < n
            invariant
                i <= n == self.entries@.len(),
                s == override_views(self.entries@),
                in_order(s),
                forall|k: int| 0 <= k < i ==> text_before((#[trigger] s[k]).key, key@),
            decreases n - i,
        {
            assert(s[i as int] == self.entries@[i as int]@);
            let other = chars_of(self.entries[i].key.as_str());
            match order_of(other.as_slice(), key) {
                TextOrder::Before => {},
                TextOrder::Same => return (i, true),
                TextOrder::After => {
                    proof {
                        assert forall|k: int| i <= k < n implies text_before(
                            key@,
                            (#[trigger] s[k]).key,
                        ) by {
                            if k > i {
                                assert(text_before(s[i as int].key, s[k].key));
                                lemma_before_transitive(key@, s[i as int].key, s[k].key);
                            }
                        }
                    }
                    return (i, false);
                },
            }
            i = i + 1;
        }
        (n, false)
    }

    proof fn lemma_absent(s: Seq<OverrideView>, at: int, key: Seq<char>)
        requires
            0 <= at <= s.len(),
            forall|i: int| 0 <= i < at ==> text_before((#[trigger] s[i]).key, key),
            forall|i: int| at <= i < s.len() ==> text_before(key, (#[trigger] s[i]).key),
        ensures
            forall|i: int| 0 <= i < s.len() ==> (#[trigger] s[i]).key != key,
    {
        lemma_before_irreflexive(key);
    }

    /// The level of an effect, if it is not the usual one.
    pub fn get(&self, key: &str) -> (r: Option<EffectLevel>)
        requires
            self.wf(),
        ensures
            r == (if self@.contains_key(key@) {
                Some(self@[key@])
            } else {
                None
            }),
    {
        let ghost s = override_views(self.entries@);
        let chars = chars_of(key);
        let (at, found) = self.place(chars.as_slice());
        proof {
            lemma_level_map(s, s.len(), key@);
        }
        if found {
            assert(s[at as int] == self.entries@[at as int]@);
            Some(self.entries[at].level)
        } else {
            proof {
                Self::lemma_absent(s, at as int, key@);
            }
            None
        }
    }

    /// The level of an effect.
    pub fn level(&self, key: &str) -> (r: EffectLevel)
        requires
            self.wf(),
        ensures
            r == level_in(self@, key@),
    {
        match self.get(key) {
            Some(level) => level,
            None => EffectLevel::Reduced,
        }
    }

    /// Sets the level of an effect.
    pub fn insert(&mut self, key: &str, level: EffectLevel)
        requires
            old(self).wf(),
        ensures
            final(self).wf(),
            final(self)@ == old(self)@.insert(key@, level),
    {
        let ghost s = override_views(self.entries@);
        let chars = chars_of(key);
        let (at, found) = self.place(chars.as_slice());
        let one = EffectOverride { key: string_of(chars.as_slice()), level };
        let ghost view = one@;
        if found {
            self.entries.set(at, one);
            let ghost t = override_views(self.entries@);
            proof {
                assert(t =~= s.update(at as int, view));
                assert forall|i: int, j: int| 0 <= i < j < t.len() implies text_before(
                    (#[trigger] t[i]).key,
                    (#[trigger] t[j]).key,
                ) by {
                    assert(t[i].key == s[i].key);
                    assert(t[j].key == s[j].key);
                    assert(text_before(s[i].key, s[j].key));
                }
                assert forall|k: Seq<char>| #[trigger]
                    level_map(t, t.len()).contains_key(k) == level_map(s, s.len()).insert(
                        key@,
                        level,
                    ).contains_key(k) by {
                    lemma_level_map(t, t.len(), k);
                    lemma_level_map(s, s.len(), k);
                    if level_map(t, t.len()).contains_key(k) {
                        let i = choose|i: int| 0 <= i < t.len() && (#[trigger] t[i]).key == k;
                        assert(s[i].key == k);
                    }
                    if level_map(s, s.len()).contains_key(k) {
                        let i = choose|i: int| 0 <= i < s.len() && (#[trigger] s[i]).key == k;
                        assert(t[i].key == k);
                    }
                    assert(t[at as int].key == key@);
                }
                assert forall|k: Seq<char>| #[trigger]
                    level_map(t, t.len()).contains_key(k) implies level_map(t, t.len())[k]
                    == level_map(s, s.len()).insert(key@, level)[k] by {
                    lemma_level_map(t, t.len(), k);
                    lemma_level_map(s, s.len(), k);
                    let i = choose|i: int| 0 <= i < t.len() && (#[trigger] t[i]).key == k;
                    assert(s[i].key == k);
                    assert(s[at as int].key == key@);
                    assert(t[at as int].level == level);
                }
                assert(level_map(t, t.len()) =~= level_map(s, s.len()).insert(key@, level));
            }
        } else {
            self.entries.insert(at, one);
            let ghost t = override_views(self.entries@);
            proof {
                Self::lemma_absent(s, at as int, key@);
                assert(t =~= s.insert(at as int, view));
                assert forall|i: int, j: int| 0 <= i < j < t.len() implies text_before(
                    (#[trigger] t[i]).key,
                    (#[trigger] t[j]).key,
                ) by {
                    let a = if i < at { s[i] } else { s[i - 1] };
                    let b = if j < at { s[j] } else { s[j - 1] };
                    if i != at && j != at {
                        assert(t[i] == a && t[j] == b);
                    }
                }
                assert forall|k: Seq<char>| #[trigger]
                    level_map(t, t.len()).contains_key(k) == level_map(s, s.len()).insert(
                        key@,
                        level,
                    ).contains_key(k) by {
                    lemma_level_map(t, t.len(), k);
                    lemma_level_map(s, s.len(), k);
                    assert(t[at as int].key == key@);
                    if level_map(t, t.len()).contains_key(k) && k != key@ {
                        let i = choose|i: int| 0 <= i < t.len() && (#[trigger] t[i]).key == k;
                        assert(s[if i < at { i } else { i - 1 }].key == k);
                    }
                    if level_map(s, s.len()).contains_key(k) {
                        let i = choose|i: int| 0 <= i < s.len() && (#[trigger] s[i]).key == k;
                        assert(t[if i < at { i } else { i + 1 }].key == k);
                    }
                }
                assert forall|k: Seq<char>| #[trigger]
                    level_map(t, t.len()).contains_key(k) implies level_map(t, t.len())[k]
                    == level_map(s, s.len()).insert(key@, level)[k] by {
                    lemma_level_map(t, t.len(), k);
                    lemma_level_map(s, s.len(), k);
                    assert(t[at as int].key == key@ && t[at as int].level == level);
                    let i = choose|i: int| 0 <= i < t.len() && (#[trigger] t[i]).key == k;
                    if k != key@ {
                        assert(s[if i < at { i } else { i - 1 }] == t[i]);
                    }
                }
                assert(level_map(t, t.len()) =~= level_map(s, s.len()).insert(key@, level));
            }
        }
    }

    /// Sets the level of an effect back to the usual one.
    pub fn remove(&mut self, key: &str)
        requires
            old(self).wf(),
        ensures
            final(self).wf(),
            final(self)@ == old(self)@.remove(key@),
    {
        let ghost s = override_views(self.entries@);
        let chars = chars_of(key);
        let (at, found) = self.place(chars.as_slice());
        if found {
            self.entries.remove(at);
            let ghost t = override_views(self.entries@);
            proof {
                assert(t =~= s.remove(at as int));
                assert forall|i: int, j: int| 0 <= i < j < t.len() implies text_before(
                    (#[trigger] t[i]).key,
                    (#[trigger] t[j]).key,
                ) by {
                    let a = s[if i < at { i } else { i + 1 }];
                    let b = s[if j < at { j } else { j + 1 }];
                    assert(t[i] == a && t[j] == b);
                }
                assert forall|k: Seq<char>| #[trigger]
                    level_map(t, t.len()).contains_key(k) == level_map(s, s.len()).remove(
                        key@,
                    ).contains_key(k) by {
                    lemma_level_map(t, t.len(), k);
                    lemma_level_map(s, s.len(), k);
                    lemma_before_irreflexive(key@);
                    if level_map(t, t.len()).contains_key(k) {
                        let i = choose|i: int| 0 <= i < t.len() && (#[trigger] t[i]).key == k;
                        let j = if i < at { i } else { i + 1 };
                        assert(s[j].key == k);
                        if j < at {
                            assert(text_before(s[j].key, s[at as int].key));
                        } else {
                            assert(text_before(s[at as int].key, s[j].key));
                        }
                    }
                    if level_map(s, s.len()).contains_key(k) && k != key@ {
                        let i = choose|i: int| 0 <= i < s.len() && (#[trigger] s[i]).key == k;
                        assert(t[if i < at { i } else { i - 1 }].key == k);
                    }
                }
                assert forall|k: Seq<char>| #[trigger]
                    level_map(t, t.len()).contains_key(k) implies level_map(t, t.len())[k]
                    == level_map(s, s.len()).remove(key@)[k] by {
                    lemma_level_map(t, t.len(), k);
                    lemma_level_map(s, s.len(), k);
                    let i = choose|i: int| 0 <= i < t.len() && (#[trigger] t[i]).key == k;
                    assert(s[if i < at { i } else { i + 1 }] == t[i]);
                }
                assert(level_map(t, t.len()) =~= level_map(s, s.len()).remove(key@));
            }
        } else {
            proof {
                Self::lemma_absent(s, at as int, key@);
                lemma_level_map(s, s.len(), key@);
                assert(level_map(s, s.len()) =~= level_map(s, s.len()).remove(key@));
            }
        }
    }

    /// Sets the level of an effect; the usual level needs no entry.
    pub fn set_level(&mut self, key: &str, level: EffectLevel)
        requires
            old(self).wf(),
        ensures
            final(self).wf(),
            final(self)@ == with_level(old(self)@, key@, level),
    {
        match level {
            EffectLevel::Reduced => self.remove(key),
            EffectLevel::Full => self.insert(key, level),
        }
    }
}

/// The level of an effect.
pub open spec fn level_in(m: Map<Seq<char>, EffectLevel>, key: Seq<char>) -> EffectLevel {
    if m.contains_key(key) {
        m[key]
    } else {
        EffectLevel::Reduced
    }
}

/// The levels with that of one effect set.
pub open spec fn with_level(
    m: Map<Seq<char>, EffectLevel>,
    key: Seq<char>,
    level: EffectLevel,
) -> Map<Seq<char>, EffectLevel> {
    match level {
        EffectLevel::Reduced => m.remove(key),
        EffectLevel::Full => m.insert(key, level),
    }
}

/// The levels that the first `n` saved entries set: those that are not the usual
/// one, with keys in lower case; later ones count.
pub open spec fn saved_levels(s: Seq<OverrideView>, n: nat) -> Map<Seq<char>, EffectLevel>
    decreases n,
{
    if n == 0 {
        Map::empty()
    } else {
        let before = saved_levels(s, (n - 1) as nat);
        match s[n - 1].level {
            EffectLevel::Reduced => before,
            EffectLevel::Full => before.insert(lower_all(s[n - 1].key), s[n - 1].level),
        }
    }
}

impl Overrides {
    /// The overrides that were saved.
    pub fn from_saved(saved: &Vec<EffectOverride>) -> (r: Overrides)
        ensures
            r.wf(),
            r@ == saved_levels(override_views(saved@), saved@.len()),
    {
        let ghost s = override_views(saved@);
        let n: usize = saved.len();
        let mut r = Overrides::new();
        let mut i: usize = 0;
        while i < n
            invariant
                i <= n == saved@.len(),
                s == override_views(saved@),
                r.wf(),
                r@ == saved_levels(s, i as nat),
            decreases n - i,
        {
            assert(s[i as int] == saved@[i as int]@);
            match saved[i].level {
                EffectLevel::Reduced => {},
                EffectLevel::Full => {
                    let chars = chars_of(saved[i].key.as_str());
                    let lower = lower_chars(chars.as_slice());
                    let key = string_of(lower.as_slice());
                    r.insert(key.as_str(), saved[i].level);
                },
            }
            i = i + 1;
        }
        r
    }

    /// The overrides in the order of their keys.
    pub fn list(&self) -> (r: Vec<EffectOverride>)
        ensures
            override_views(r@) == override_views(self.entries@),
    {
        let n: usize = self.entries.len();
        let mut r: Vec<EffectOverride> = Vec::new();
        let mut i: usize = 0;
        while i < n
            invariant
                i <= n == self.entries@.len(),
                override_views(r@) == override_views(self.entries@).take(i as int),
            decreases n - i,
        {
            let ghost before = override_views(r@);
            let one = EffectOverride {
                key: self.entries[i].key.clone(),
                level: self.entries[i].level,
            };
            let ghost view = one@;
            r.push(one);
            i = i + 1;
            assert(override_views(r@) =~= before.push(view));
            assert(override_views(r@) =~= override_views(self.entries@).take(i as int));
        }
        assert(override_views(r@) =~= override_views(self.entries@));
        r
    }
}

/// Whether no level is the usual one and all keys are in lower case.
pub open spec fn worth_saving(s: Seq<OverrideView>) -> bool {
    forall|i: int|
        0 <= i < s.len() ==> (#[trigger] s[i]).level is Full && lower_all(s[i].key) == s[i].key
}

/// What is saved and loaded again is what there was: loading the list of some
/// overrides gives the overrides.
pub proof fn law_saved_overrides_load_back(s: Seq<OverrideView>, n: nat)
    requires
        n <= s.len(),
        worth_saving(s),
    ensures
        saved_levels(s, n) == level_map(s, n),
    decreases n,
{
    if n > 0 {
        law_saved_overrides_load_back(s, (n - 1) as nat);
        assert(s[n - 1].level is Full);
    }
}

} // verus!
