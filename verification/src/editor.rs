//! The lists of skills and monsters whose effects can be kept: rows, searching
//! them, and setting their levels.

use crate::lines::joined_by;
use crate::text::{same_text, texts, to_lowercase, unicode_lowercase};
use vstd::prelude::*;

verus! {

/// A row: a skill, or a monster with its variants.
#[derive(Debug)]
pub struct EditorRow {
    /// The effect folders of the skill, or the keys of the monsters.
    pub keys: Vec<String>,
    pub display: String,
    pub display_lower: String,
    /// What is searched besides the name, in lower case.
    pub search_lower: String,
    /// Empty for monsters.
    pub active_skill_id: String,
    /// Empty for monsters.
    pub action_type: String,
    /// Whether the game has a name for it.
    pub named: bool,
    /// Where something without a name belongs.
    pub context: Option<String>,
}

pub struct RowView {
    pub keys: Seq<Seq<char>>,
    pub display: Seq<char>,
    pub display_lower: Seq<char>,
    pub search_lower: Seq<char>,
    pub active_skill_id: Seq<char>,
    pub action_type: Seq<char>,
    pub named: bool,
    pub context: Option<Seq<char>>,
}

pub open spec fn text_option(t: Option<String>) -> Option<Seq<char>> {
    match t {
        Some(t) => Some(t@),
        None => None,
    }
}

impl View for EditorRow {
    type V = RowView;

    open spec fn view(&self) -> RowView {
        RowView {
            keys: texts(self.keys@),
            display: self.display@,
            display_lower: self.display_lower@,
            search_lower: self.search_lower@,
            active_skill_id: self.active_skill_id@,
            action_type: self.action_type@,
            named: self.named,
            context: text_option(self.context),
        }
    }
}

pub open spec fn row_views(v: Seq<EditorRow>) -> Seq<RowView> {
    v.map_values(|r: EditorRow| r@)
}

/// A skill as the game's tables have it.
#[derive(Debug)]
pub struct EffectSkillCatalogEntry {
    pub active_skill_id: String,
    pub display: String,
    pub action_type: String,
    pub folders: Vec<String>,
}

/// A monster as the game's tables have it.
#[derive(Debug)]
pub struct MonsterEffectCatalogEntry {
    pub display: String,
    pub monster_keys: Vec<String>,
    pub family: String,
    pub search_aliases: Vec<String>,
}

fn join_strings(parts: &Vec<String>, sep: &str) -> (r: String)
    ensures
        r@ == joined_by(texts(parts@), sep@, parts@.len()),
{
    let n: usize = parts.len();
    let mut r = String::new();
    let mut i: usize = 0;
    assert(r@ =~= joined_by(texts(parts@), sep@, 0));
    while i < n
        invariant
            i <= n == parts@.len(),
            r@ == joined_by(texts(parts@), sep@, i as nat),
        decreases n - i,
    {
        assert(texts(parts@)[i as int] == parts@[i as int]@);
        if i > 0 {
            r.append(sep);
        }
        r.append(parts[i].as_str());
        i = i + 1;
        assert(r@ =~= joined_by(texts(parts@), sep@, i as nat));
    }
    r
}

/// Four texts with blanks between them.
pub open spec fn four_words(a: Seq<char>, b: Seq<char>, c: Seq<char>, d: Seq<char>) -> Seq<char> {
    a + " "@ + b + " "@ + c + " "@ + d
}

fn words(a: &str, b: &str, c: &str, d: &str) -> (r: String)
    ensures
        r@ == four_words(a@, b@, c@, d@),
{
    let mut r = a.to_owned();
    r.append(" ");
    r.append(b);
    r.append(" ");
    r.append(c);
    r.append(" ");
    r.append(d);
    r
}

/// The row of a skill.
pub open spec fn skill_row(
    id: Seq<char>,
    display: Seq<char>,
    action_type: Seq<char>,
    folders: Seq<Seq<char>>,
) -> RowView {
    RowView {
        keys: folders,
        display,
        display_lower: unicode_lowercase(display),
        search_lower: four_words(
            unicode_lowercase(display),
            id,
            unicode_lowercase(action_type),
            joined_by(folders, " "@, folders.len()),
        ),
        active_skill_id: id,
        action_type,
        named: true,
        context: None,
    }
}

/// The rows of some skills, in their order.
pub fn effect_skill_catalog_rows(entries: Vec<EffectSkillCatalogEntry>) -> (r: Vec<EditorRow>)
    ensures
        row_views(r@) == entries@.map_values(
            |e: EffectSkillCatalogEntry|
                skill_row(e.active_skill_id@, e.display@, e.action_type@, texts(e.folders@)),
        ),
{
    let ghost all = entries@;
    let ghost wanted = entries@.map_values(
        |e: EffectSkillCatalogEntry|
            skill_row(e.active_skill_id@, e.display@, e.action_type@, texts(e.folders@)),
    );
    let mut entries = entries;
    let n: usize = entries.len();
    let mut r: Vec<EditorRow> = Vec::new();
    let mut i: usize = 0;
    while i < n
        invariant
            i <= n == all.len(),
            entries@.len() == n,
            forall|k: int| i <= k < n ==> entries@[k] == #[trigger] all[k],
            wanted == all.map_values(
                |e: EffectSkillCatalogEntry|
                    skill_row(e.active_skill_id@, e.display@, e.action_type@, texts(e.folders@)),
            ),
            row_views(r@) == wanted.take(i as int),
        decreases n - i,
    {
        let ghost before = row_views(r@);
        assert(entries@[i as int] == all[i as int]);
        let display_lower = to_lowercase(entries[i].display.as_str());
        let action_lower = to_lowercase(entries[i].action_type.as_str());
        let joined = join_strings(&entries[i].folders, " ");
        let search_lower = words(
            display_lower.as_str(),
            entries[i].active_skill_id.as_str(),
            action_lower.as_str(),
            joined.as_str(),
        );
        let mut keys: Vec<String> = Vec::new();
        std::mem::swap(&mut keys, &mut entries[i].folders);
        let row = EditorRow {
            keys,
            display: entries[i].display.clone(),
            display_lower,
            search_lower,
            active_skill_id: entries[i].active_skill_id.clone(),
            action_type: entries[i].action_type.clone(),
            named: true,
            context: None,
        };
        let ghost view = row@;
        r.push(row);
        assert(view == wanted[i as int]);
        i = i + 1;
        assert(row_views(r@) =~= before.push(view));
        assert(row_views(r@) =~= wanted.take(i as int));
    }
    assert(row_views(r@) =~= wanted);
    r
}

pub struct MonsterView {
    pub display: Seq<char>,
    pub monster_keys: Seq<Seq<char>>,
    pub family: Seq<char>,
    pub search_aliases: Seq<Seq<char>>,
}

impl View for MonsterEffectCatalogEntry {
    type V = MonsterView;

    open spec fn view(&self) -> MonsterView {
        MonsterView {
            display: self.display@,
            monster_keys: texts(self.monster_keys@),
            family: self.family@,
            search_aliases: texts(self.search_aliases@),
        }
    }
}

pub open spec fn monster_views(v: Seq<MonsterEffectCatalogEntry>) -> Seq<MonsterView> {
    v.map_values(|e: MonsterEffectCatalogEntry| e@)
}

/// The names of some monsters in lower case.
pub open spec fn lower_names(entries: Seq<MonsterView>) -> Seq<Seq<char>> {
    entries.map_values(|e: MonsterView| unicode_lowercase(e.display))
}

/// Whether another one goes by the same name. Names are in lower case.
pub open spec fn shares_name(lowers: Seq<Seq<char>>, i: int) -> bool {
    exists|k: int| 0 <= k < lowers.len() && k != i && #[trigger] lowers[k] == lowers[i]
}

/// The row of a monster, given the names of all in lower case. Where several
/// families share a name, the family stands behind it.
pub open spec fn monster_row_given(
    entries: Seq<MonsterView>,
    lowers: Seq<Seq<char>>,
    i: int,
) -> RowView {
    let e = entries[i];
    RowView {
        keys: e.monster_keys,
        display: if shares_name(lowers, i) {
            e.display + " ("@ + e.family + ")"@
        } else {
            e.display
        },
        display_lower: lowers[i],
        search_lower: four_words(
            lowers[i],
            e.family,
            joined_by(e.monster_keys, " "@, e.monster_keys.len()),
            joined_by(e.search_aliases, " "@, e.search_aliases.len()),
        ),
        active_skill_id: Seq::empty(),
        action_type: Seq::empty(),
        named: true,
        context: None,
    }
}

/// The row of a monster.
pub open spec fn monster_row(entries: Seq<MonsterView>, i: int) -> RowView {
    monster_row_given(entries, lower_names(entries), i)
}

/// Whether another one goes by the same name. Names are in lower case.
pub fn is_shared_name(lowers: &Vec<String>, i: usize) -> (r: bool)
    requires
        i < lowers@.len(),
    ensures
        r == shares_name(texts(lowers@), i as int),
{
    let ghost all = texts(lowers@);
    let n: usize = lowers.len();
    let mut k: usize = 0;
    while k < n
        invariant
            k <= n == lowers@.len(),
            i < n,
            all == texts(lowers@),
            forall|j: int| 0 <= j < k && j != i ==> #[trigger] all[j] != all[i as int],
        decreases n - k,
    {
        assert(all[k as int] == lowers@[k as int]@ && all[i as int] == lowers@[i as int]@);
        if k != i && same_text(lowers[k].as_str(), lowers[i].as_str()) {
            return true;
        }
        k = k + 1;
    }
    false
}

/// The rows of some monsters, in their order, given their names in lower case.
pub fn monster_rows_given(
    entries: Vec<MonsterEffectCatalogEntry>,
    lowers: &Vec<String>,
) -> (r: Vec<EditorRow>)
    requires
        lowers@.len() == entries@.len(),
    ensures
        r@.len() == entries@.len(),
        forall|i: int|
            0 <= i < r@.len() ==> (#[trigger] r@[i])@ == monster_row_given(
                monster_views(entries@),
                texts(lowers@),
                i,
            ),
{
    let ghost given = entries@;
    let ghost all = monster_views(given);
    let ghost names = texts(lowers@);
    let n: usize = entries.len();
    let mut entries = entries;
    let mut r: Vec<EditorRow> = Vec::new();
    let mut i: usize = 0;
    while i < n
        invariant
            i <= n == entries@.len() == given.len() == lowers@.len() == all.len(),
            all == monster_views(given),
            names == texts(lowers@),
            forall|k: int| i <= k < n ==> entries@[k] == #[trigger] given[k],
            r@.len() == i,
            forall|k: int|
                0 <= k < i ==> (#[trigger] r@[k])@ == monster_row_given(all, names, k),
        decreases n - i,
    {
        assert(entries@[i as int] == given[i as int]);
        assert(all[i as int] == given[i as int]@);
        assert(names[i as int] == lowers@[i as int]@);
        let shared: bool = is_shared_name(lowers, i);
        let keys_text = join_strings(&entries[i].monster_keys, " ");
        let alias_text = join_strings(&entries[i].search_aliases, " ");
        let search_lower = words(
            lowers[i].as_str(),
            entries[i].family.as_str(),
            keys_text.as_str(),
            alias_text.as_str(),
        );
        let mut display = entries[i].display.clone();
        if shared {
            display.append(" (");
            display.append(entries[i].family.as_str());
            display.append(")");
        }
        let mut keys: Vec<String> = Vec::new();
        std::mem::swap(&mut keys, &mut entries[i].monster_keys);
        let row = EditorRow {
            keys,
            display,
            display_lower: lowers[i].clone(),
            search_lower,
            active_skill_id: String::new(),
            action_type: String::new(),
            named: true,
            context: None,
        };
        assert(row@.active_skill_id =~= Seq::<char>::empty());
        assert(row@.action_type =~= Seq::<char>::empty());
        assert(row@ == monster_row_given(all, names, i as int));
        r.push(row);
        i = i + 1;
    }
    r
}

/// The rows of some monsters, in their order.
pub fn monster_effect_catalog_rows(entries: Vec<MonsterEffectCatalogEntry>) -> (r: Vec<EditorRow>)
    ensures
        r@.len() == entries@.len(),
        forall|i: int|
            0 <= i < r@.len() ==> (#[trigger] r@[i])@ == monster_row(monster_views(entries@), i),
{
    let ghost all = monster_views(entries@);
    let n: usize = entries.len();
    let mut lowers: Vec<String> = Vec::new();
    let mut i: usize = 0;
    while i < n
        invariant
            i <= n == entries@.len(),
            all == monster_views(entries@),
            lowers@.len() == i,
            forall|k: int|
                0 <= k < i ==> (#[trigger] lowers@[k])@ == unicode_lowercase(all[k].display),
        decreases n - i,
    {
        assert(all[i as int] == entries@[i as int]@);
        lowers.push(to_lowercase(entries[i].display.as_str()));
        i = i + 1;
    }
    assert(texts(lowers@) =~= lower_names(all));
    monster_rows_given(entries, &lowers)
}

} // verus!
