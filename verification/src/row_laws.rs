//! What the rows of the editor are found by, and what levels effects have.

use crate::editor::{four_words, lower_names, monster_row, skill_row, MonsterView};
use crate::lines::joined_by;
use crate::overrides::{level_in, saved_levels, with_level, EffectLevel, OverrideView};
use crate::text::{contains_text, lower_all, occurs_at, unicode_lowercase};
use vstd::prelude::*;

verus! {

proof fn lemma_held(a: Seq<char>, b: Seq<char>, c: Seq<char>)
    ensures
        contains_text(a + b + c, b),
{
    let t = a + b + c;
    assert(t.subrange(a.len() as int, (a.len() + b.len()) as int) =~= b);
    assert(occurs_at(t, a.len() as int, b));
}

proof fn lemma_held_in(t: Seq<char>, part: Seq<char>, p: Seq<char>)
    requires
        contains_text(t, part),
        contains_text(part, p),
    ensures
        contains_text(t, p),
{
    let i = choose|i: int| occurs_at(t, i, part);
    let j = choose|j: int| occurs_at(part, j, p);
    assert(t.subrange(i, i + part.len()) == part);
    assert(t.subrange(i + j, i + j + p.len()) =~= part.subrange(j, j + p.len()));
    assert(occurs_at(t, i + j, p));
}

proof fn lemma_words_held(a: Seq<char>, b: Seq<char>, c: Seq<char>, d: Seq<char>)
    ensures
        contains_text(four_words(a, b, c, d), a),
        contains_text(four_words(a, b, c, d), b),
        contains_text(four_words(a, b, c, d), c),
        contains_text(four_words(a, b, c, d), d),
{
    let t = four_words(a, b, c, d);
    let s = " "@;
    let none = Seq::<char>::empty();
    assert(t =~= none + a + (s + b + s + c + s + d));
    lemma_held(none, a, s + b + s + c + s + d);
    assert(t =~= (a + s) + b + (s + c + s + d));
    lemma_held(a + s, b, s + c + s + d);
    assert(t =~= (a + s + b + s) + c + (s + d));
    lemma_held(a + s + b + s, c, s + d);
    assert(t =~= (a + s + b + s + c + s) + d + none);
    lemma_held(a + s + b + s + c + s, d, none);
}

proof fn lemma_joined_holds(parts: Seq<Seq<char>>, sep: Seq<char>, n: nat, i: int)
    requires
        0 <= i < n <= parts.len(),
    ensures
        contains_text(joined_by(parts, sep, n), parts[i]),
    decreases n,
{
    let none = Seq::<char>::empty();
    let t = joined_by(parts, sep, n);
    if n == 1 {
        assert(t =~= none + parts[0] + none);
        lemma_held(none, parts[0], none);
    } else {
        let before = joined_by(parts, sep, (n - 1) as nat);
        if i == n - 1 {
            assert(t =~= (before + sep) + parts[i] + none);
            lemma_held(before + sep, parts[i], none);
        } else {
            lemma_joined_holds(parts, sep, (n - 1) as nat, i);
            assert(t =~= none + before + (sep + parts[n - 1]));
            lemma_held(none, before, sep + parts[n - 1]);
            lemma_held_in(t, before, parts[i]);
        }
    }
}

/// A skill is found by its name and its kind in lower case, by its id, and by each of
/// its folders. Its folders are what its level is kept under.
pub proof fn law_skills_are_found(
    id: Seq<char>,
    display: Seq<char>,
    action_type: Seq<char>,
    folders: Seq<Seq<char>>,
)
    ensures
        ({
            let row = skill_row(id, display, action_type, folders);
            &&& contains_text(row.search_lower, unicode_lowercase(display))
            &&& contains_text(row.search_lower, id)
            &&& contains_text(row.search_lower, unicode_lowercase(action_type))
            &&& forall|i: int|
                0 <= i < folders.len() ==> contains_text(row.search_lower, #[trigger] folders[i])
            &&& row.keys == folders
            &&& row.display == display
            &&& row.display_lower == unicode_lowercase(display)
            &&& row.active_skill_id == id
            &&& row.action_type == action_type
            &&& row.named
            &&& row.context is None
        }),
{
    let row = skill_row(id, display, action_type, folders);
    let all = joined_by(folders, " "@, folders.len());
    lemma_words_held(unicode_lowercase(display), id, unicode_lowercase(action_type), all);
    assert forall|i: int| 0 <= i < folders.len() implies contains_text(
        row.search_lower,
        #[trigger] folders[i],
    ) by {
        lemma_joined_holds(folders, " "@, folders.len(), i);
        lemma_held_in(row.search_lower, all, folders[i]);
    }
}

/// A monster is found by its name in lower case, by its family, by each of its keys and
/// by each of its other names. Its family is shown only where another monster has the
/// same name, but for case.
pub proof fn law_monsters_are_found(entries: Seq<MonsterView>, i: int)
    requires
        0 <= i < entries.len(),
    ensures
        ({
            let e = entries[i];
            let row = monster_row(entries, i);
            &&& contains_text(row.search_lower, unicode_lowercase(e.display))
            &&& contains_text(row.search_lower, e.family)
            &&& forall|k: int|
                0 <= k < e.monster_keys.len() ==> contains_text(
                    row.search_lower,
                    #[trigger] e.monster_keys[k],
                )
            &&& forall|k: int|
                0 <= k < e.search_aliases.len() ==> contains_text(
                    row.search_lower,
                    #[trigger] e.search_aliases[k],
                )
            &&& row.keys == e.monster_keys
            &&& row.display_lower == unicode_lowercase(e.display)
            &&& row.named
            &&& row.context is None
            &&& (exists|k: int|
                0 <= k < entries.len() && k != i && unicode_lowercase(
                    (#[trigger] entries[k]).display,
                ) == unicode_lowercase(e.display)) ==> row.display == e.display + " ("@ + e.family
                + ")"@
            &&& !(exists|k: int|
                0 <= k < entries.len() && k != i && unicode_lowercase(
                    (#[trigger] entries[k]).display,
                ) == unicode_lowercase(e.display)) ==> row.display == e.display
        }),
{
    let e = entries[i];
    let row = monster_row(entries, i);
    let keys = joined_by(e.monster_keys, " "@, e.monster_keys.len());
    let others = joined_by(e.search_aliases, " "@, e.search_aliases.len());
    let lowers = lower_names(entries);
    lemma_words_held(lowers[i], e.family, keys, others);
    assert forall|k: int| 0 <= k < e.monster_keys.len() implies contains_text(
        row.search_lower,
        #[trigger] e.monster_keys[k],
    ) by {
        lemma_joined_holds(e.monster_keys, " "@, e.monster_keys.len(), k);
        lemma_held_in(row.search_lower, keys, e.monster_keys[k]);
    }
    assert forall|k: int| 0 <= k < e.search_aliases.len() implies contains_text(
        row.search_lower,
        #[trigger] e.search_aliases[k],
    ) by {
        lemma_joined_holds(e.search_aliases, " "@, e.search_aliases.len(), k);
        lemma_held_in(row.search_lower, others, e.search_aliases[k]);
    }
    if exists|k: int|
        0 <= k < entries.len() && k != i && unicode_lowercase((#[trigger] entries[k]).display)
            == unicode_lowercase(e.display) {
        let k = choose|k: int|
            0 <= k < entries.len() && k != i && unicode_lowercase((#[trigger] entries[k]).display)
                == unicode_lowercase(e.display);
        assert(lowers[k] == lowers[i]);
    } else if crate::editor::shares_name(lowers, i) {
        let k = choose|k: int| 0 <= k < lowers.len() && k != i && #[trigger] lowers[k] == lowers[i];
        assert(unicode_lowercase(entries[k].display) == unicode_lowercase(e.display));
    }
}

/// The level that is set is the one that an effect has, and no other effect's level
/// changes.
pub proof fn law_level_is_set(
    m: Map<Seq<char>, EffectLevel>,
    key: Seq<char>,
    level: EffectLevel,
    other: Seq<char>,
)
    ensures
        level_in(with_level(m, key, level), other) == if other == key {
            level
        } else {
            level_in(m, other)
        },
{
}

/// Of saved levels those of kept effects count, under their keys in lower case; every
/// other effect has the usual level.
pub proof fn law_saved_levels_are_read(s: Seq<OverrideView>, n: nat, key: Seq<char>)
    requires
        n <= s.len(),
    ensures
        level_in(saved_levels(s, n), key) == EffectLevel::Full <==> exists|i: int|
            0 <= i < n && (#[trigger] s[i]).level == EffectLevel::Full && lower_all(s[i].key) == key,
    decreases n,
{
    if n > 0 {
        let m = (n - 1) as nat;
        law_saved_levels_are_read(s, m, key);
        let found = exists|i: int|
            0 <= i < m && (#[trigger] s[i]).level == EffectLevel::Full && lower_all(s[i].key) == key;
        if found {
            let i = choose|i: int|
                0 <= i < m && (#[trigger] s[i]).level == EffectLevel::Full && lower_all(s[i].key)
                    == key;
            assert(0 <= i < n && s[i].level == EffectLevel::Full && lower_all(s[i].key) == key);
        }
        if s[n - 1].level == EffectLevel::Full && lower_all(s[n - 1].key) == key {
            assert(level_in(saved_levels(s, n), key) == EffectLevel::Full);
        }
    }
}

} // verus!
