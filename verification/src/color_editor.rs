//! The editor of the colors of modifier texts: which rows it shows.

use crate::order::{
    lemma_before_irreflexive, lemma_before_total, lemma_before_transitive, listed_behind, lists_last,
    sorted_last, text_before,
};
use crate::search::{query_matches, terms_from, SearchQuery, TermView};
use crate::sort::positions;
use crate::text::{char_seqs, chars_of, same_text, to_lowercase, unicode_lowercase};
use vstd::prelude::*;

verus! {

/// The color of one stat.
#[derive(Debug)]
pub struct ColorModEntry {
    pub stat_id: String,
    pub color: [u8; 3],
    pub enabled: bool,
}

/// A stat that the game describes.
#[derive(Debug)]
pub struct CatalogRow {
    pub stat_id: String,
    pub text: String,
    pub stat_id_lower: String,
    pub text_lower: String,
}

pub struct StatView {
    pub stat_id: Seq<char>,
    pub text: Seq<char>,
    pub stat_id_lower: Seq<char>,
    pub text_lower: Seq<char>,
}

impl View for CatalogRow {
    type V = StatView;

    open spec fn view(&self) -> StatView {
        StatView {
            stat_id: self.stat_id@,
            text: self.text@,
            stat_id_lower: self.stat_id_lower@,
            text_lower: self.text_lower@,
        }
    }
}

pub open spec fn stat_views(v: Seq<CatalogRow>) -> Seq<StatView> {
    v.map_values(|r: CatalogRow| r@)
}

/// The stats that have a color.
pub open spec fn mod_ids(v: Seq<ColorModEntry>) -> Seq<Seq<char>> {
    v.map_values(|e: ColorModEntry| e.stat_id@)
}

/// A row of the editor: a stat with a color, or one that could get one.
#[derive(Debug, Clone, Copy, PartialEq, Eq, Structural)]
pub enum ColorRowRef {
    Config(usize),
    Catalog(usize),
}

/// The first row from `i` on of that stat, or how many rows there are.
pub open spec fn stat_at(rows: Seq<StatView>, id: Seq<char>, i: int) -> int
    decreases rows.len() - i,
{
    if i < 0 || i >= rows.len() {
        rows.len() as int
    } else if rows[i].stat_id == id {
        i
    } else {
        stat_at(rows, id, i + 1)
    }
}

/// The text of a stat, where there is one.
pub open spec fn stat_text(rows: Seq<StatView>, id: Seq<char>) -> Option<Seq<char>> {
    let at = stat_at(rows, id, 0);
    if at < rows.len() && rows[at].text.len() > 0 {
        Some(rows[at].text)
    } else {
        None
    }
}

/// The text of a stat, where there is one.
pub fn catalog_text<'a>(rows: &'a Vec<CatalogRow>, stat_id: &str) -> (r: Option<&'a str>)
    ensures
        match r {
            Some(t) => stat_text(stat_views(rows@), stat_id@) == Some(t@),
            None => stat_text(stat_views(rows@), stat_id@) is None,
        },
{
    let n: usize = rows.len();
    let mut i: usize = 0;
    while i < n
        invariant
            i <= n == rows@.len(),
            stat_at(stat_views(rows@), stat_id@, 0) == stat_at(
                stat_views(rows@),
                stat_id@,
                i as int,
            ),
        decreases n - i,
    {
        assert(stat_views(rows@)[i as int] == rows@[i as int]@);
        if same_text(rows[i].stat_id.as_str(), stat_id) {
            let text = rows[i].text.as_str();
            return if same_text(text, "") {
                proof {
                    reveal_strlit("");
                }
                None
            } else {
                proof {
                    reveal_strlit("");
                    if text@.len() == 0 {
                        assert(text@ =~= ""@);
                    }
                }
                Some(text)
            };
        }
        i = i + 1;
    }
    None
}

/// The text that a stat with a color is searched by: its text in lower case, or
/// nothing.
pub open spec fn mod_text_lower(rows: Seq<StatView>, id: Seq<char>) -> Seq<char> {
    match stat_text(rows, id) {
        Some(t) => unicode_lowercase(t),
        None => Seq::empty(),
    }
}

/// Which of the stats with a color a query finds.
pub open spec fn mod_hits(
    terms: Seq<TermView>,
    ids: Seq<Seq<char>>,
    rows: Seq<StatView>,
) -> Seq<bool> {
    ids.map_values(
        |id: Seq<char>| query_matches(terms, unicode_lowercase(id), mod_text_lower(rows, id)),
    )
}

/// Which of the stats that the game describes a query finds.
pub open spec fn stat_hits(terms: Seq<TermView>, rows: Seq<StatView>) -> Seq<bool> {
    rows.map_values(|row: StatView| query_matches(terms, row.stat_id_lower, row.text_lower))
}

/// Those of the first `n` stats with a color that are found.
pub open spec fn found_mods(hits: Seq<bool>, n: nat) -> Seq<ColorRowRef>
    decreases n,
{
    if n == 0 {
        Seq::empty()
    } else if hits[n - 1] {
        found_mods(hits, (n - 1) as nat).push(ColorRowRef::Config((n - 1) as usize))
    } else {
        found_mods(hits, (n - 1) as nat)
    }
}

/// Those of the first `n` described stats that are found and have no color yet.
pub open spec fn found_stats(
    ids: Seq<Seq<char>>,
    rows: Seq<StatView>,
    hits: Seq<bool>,
    n: nat,
) -> Seq<ColorRowRef>
    decreases n,
{
    if n == 0 {
        Seq::empty()
    } else if hits[n - 1] && !ids.contains(rows[n - 1].stat_id) {
        found_stats(ids, rows, hits, (n - 1) as nat).push(ColorRowRef::Catalog((n - 1) as usize))
    } else {
        found_stats(ids, rows, hits, (n - 1) as nat)
    }
}

/// The rows that a search shows: first the stats with a color, then those that
/// could get one.
pub open spec fn color_rows(
    ids: Seq<Seq<char>>,
    rows: Seq<StatView>,
    search: Seq<char>,
) -> Seq<ColorRowRef> {
    let terms = terms_from(search, 0);
    found_mods(mod_hits(terms, ids, rows), ids.len()) + found_stats(
        ids,
        rows,
        stat_hits(terms, rows),
        rows.len(),
    )
}

fn has_color(mods: &Vec<ColorModEntry>, stat_id: &str) -> (r: bool)
    ensures
        r == mod_ids(mods@).contains(stat_id@),
{
    let n: usize = mods.len();
    let mut i: usize = 0;
    while i < n
        invariant
            i <= n == mods@.len(),
            forall|k: int| 0 <= k < i ==> #[trigger] mod_ids(mods@)[k] != stat_id@,
        decreases n - i,
    {
        assert(mod_ids(mods@)[i as int] == mods@[i as int].stat_id@);
        if same_text(mods[i].stat_id.as_str(), stat_id) {
            return true;
        }
        i = i + 1;
    }
    false
}

/// The rows that a search shows.
pub fn filter_colors(mods: &Vec<ColorModEntry>, rows: &Vec<CatalogRow>, search: &str) -> (r: Vec<
    ColorRowRef,
>)
    ensures
        r@ == color_rows(mod_ids(mods@), stat_views(rows@), search@),
{
    let ghost ids = mod_ids(mods@);
    let ghost stats = stat_views(rows@);
    let query = SearchQuery::parse(search);
    let ghost a = mod_hits(query@, ids, stats);
    let ghost b = stat_hits(query@, stats);
    let mut out: Vec<ColorRowRef> = Vec::new();
    let n: usize = mods.len();
    let mut i: usize = 0;
    while i < n
        invariant
            i <= n == mods@.len(),
            ids == mod_ids(mods@),
            stats == stat_views(rows@),
            a == mod_hits(query@, ids, stats),
            out@ == found_mods(a, i as nat),
        decreases n - i,
    {
        assert(ids[i as int] == mods@[i as int].stat_id@);
        let id_lower = to_lowercase(mods[i].stat_id.as_str());
        let text_lower = match catalog_text(rows, mods[i].stat_id.as_str()) {
            Some(t) => to_lowercase(t),
            None => String::new(),
        };
        assert(text_lower@ =~= mod_text_lower(stats, ids[i as int]));
        if query.matches(id_lower.as_str(), text_lower.as_str()) {
            out.push(ColorRowRef::Config(i));
        }
        i = i + 1;
    }
    let m: usize = rows.len();
    let mut k: usize = 0;
    let ghost first = out@;
    assert(out@ =~= first + found_stats(ids, stats, b, 0));
    while k < m
        invariant
            k <= m == rows@.len(),
            ids == mod_ids(mods@),
            stats == stat_views(rows@),
            b == stat_hits(query@, stats),
            out@ == first + found_stats(ids, stats, b, k as nat),
        decreases m - k,
    {
        assert(stats[k as int] == rows@[k as int]@);
        let hit: bool = query.matches(
            rows[k].stat_id_lower.as_str(),
            rows[k].text_lower.as_str(),
        );
        if hit && !has_color(mods, rows[k].stat_id.as_str()) {
            out.push(ColorRowRef::Catalog(k));
        }
        k = k + 1;
        assert(out@ =~= first + found_stats(ids, stats, b, k as nat));
    }
    out
}

/// How many stats are colored.
pub open spec fn enabled_mods(v: Seq<ColorModEntry>, n: nat) -> nat
    decreases n,
{
    if n == 0 {
        0
    } else {
        enabled_mods(v, (n - 1) as nat) + if v[n - 1].enabled {
            1nat
        } else {
            0
        }
    }
}

/// How many stats are colored.
pub fn enabled_count(mods: &Vec<ColorModEntry>) -> (r: usize)
    ensures
        r == enabled_mods(mods@, mods@.len()),
{
    let n: usize = mods.len();
    let mut total: usize = 0;
    let mut i: usize = 0;
    while i < n
        invariant
            i <= n == mods@.len(),
            total == enabled_mods(mods@, i as nat),
            total <= i,
        decreases n - i,
    {
        if mods[i].enabled {
            total = total + 1;
        }
        i = i + 1;
    }
    total
}

/// A stat as one of the game's files describes it.
#[derive(Debug)]
pub struct StatCatalogEntry {
    pub stat_id: String,
    pub text: String,
}

pub struct StatEntryView {
    pub stat_id: Seq<char>,
    pub text: Seq<char>,
}

impl View for StatCatalogEntry {
    type V = StatEntryView;

    open spec fn view(&self) -> StatEntryView {
        StatEntryView { stat_id: self.stat_id@, text: self.text@ }
    }
}

pub open spec fn stat_entries(v: Seq<StatCatalogEntry>) -> Seq<StatEntryView> {
    v.map_values(|e: StatCatalogEntry| e@)
}

/// Whether an entry is the first one of its stat.
pub open spec fn is_first(all: Seq<StatEntryView>, k: int) -> bool {
    &&& 0 <= k < all.len()
    &&& forall|j: int| 0 <= j < k ==> (#[trigger] all[j]).stat_id != all[k].stat_id
}

/// Whether an entry is the first one of its stat in `all`.
pub open spec fn first_of_its_stat(all: Seq<StatEntryView>, e: StatEntryView) -> bool {
    exists|k: int| is_first(all, k) && all[k] == e
}

pub open spec fn lists_stat(r: Seq<StatEntryView>, stat_id: Seq<char>) -> bool {
    exists|i: int| 0 <= i < r.len() && (#[trigger] r[i]).stat_id == stat_id
}

/// Whether the names of the stats increase.
pub open spec fn in_stat_order(r: Seq<StatEntryView>) -> bool {
    forall|i: int, j: int|
        0 <= i < j < r.len() ==> text_before((#[trigger] r[i]).stat_id, (#[trigger] r[j]).stat_id)
}

/// Whether `r` has the first entry of each stat, in the order of their names.
pub open spec fn is_catalog(all: Seq<StatEntryView>, r: Seq<StatEntryView>) -> bool {
    &&& in_stat_order(r)
    &&& forall|i: int| 0 <= i < r.len() ==> first_of_its_stat(all, #[trigger] r[i])
    &&& forall|k: int| 0 <= k < all.len() ==> lists_stat(r, (#[trigger] all[k]).stat_id)
}

proof fn lemma_first_of_reversed(
    all: Seq<StatEntryView>,
    ids: Seq<Seq<char>>,
    p: Seq<int>,
    i: int,
)
    requires
        ids.len() == all.len(),
        forall|k: int| 0 <= k < all.len() ==> #[trigger] ids[k] == all[all.len() - 1 - k].stat_id,
        lists_last(ids, 0, ids.len() as int, p),
        0 <= i < p.len(),
    ensures
        is_first(all, all.len() - 1 - p[i]),
{
    let n = all.len() as int;
    let k = n - 1 - p[i];
    assert forall|j: int| 0 <= j < k implies (#[trigger] all[j]).stat_id != all[k].stat_id by {
        let x = n - 1 - j;
        if all[j].stat_id == all[k].stat_id {
            assert(ids[x] == all[j].stat_id);
            assert(ids[p[i]] == all[k].stat_id);
            assert(listed_behind(ids, p, x));
            let m = choose|m: int| 0 <= m < p.len() && ids[#[trigger] p[m]] == ids[x] && p[m] >= x;
            lemma_before_irreflexive(ids[x]);
            if m < i {
                assert(text_before(ids[p[m]], ids[p[i]]));
            } else if i < m {
                assert(text_before(ids[p[i]], ids[p[m]]));
            }
        }
    }
}

/// The catalog of some descriptions: of each stat the first one, in the order of
/// their names.
pub fn merge_stat_catalog(entries: &Vec<StatCatalogEntry>) -> (r: Vec<StatCatalogEntry>)
    ensures
        is_catalog(stat_entries(entries@), stat_entries(r@)),
{
    let ghost all = stat_entries(entries@);
    let n: usize = entries.len();
    let mut ids: Vec<Vec<char>> = Vec::new();
    let mut i: usize = 0;
    while i < n
        invariant
            i <= n == entries@.len(),
            all == stat_entries(entries@),
            ids@.len() == i,
            forall|k: int|
                0 <= k < i ==> #[trigger] char_seqs(ids@)[k] == all[n - 1 - k].stat_id,
        decreases n - i,
    {
        let ghost before = char_seqs(ids@);
        assert(all[n - 1 - i] == entries@[n - 1 - i]@);
        let one = chars_of(entries[n - 1 - i].stat_id.as_str());
        let ghost text = one@;
        ids.push(one);
        i = i + 1;
        assert(char_seqs(ids@) =~= before.push(text));
    }
    let order = sorted_last(&ids);
    let ghost p = positions(order@);
    let ghost keys = char_seqs(ids@);
    let m: usize = order.len();
    let mut r: Vec<StatCatalogEntry> = Vec::new();
    let mut k: usize = 0;
    while k < m
        invariant
            k <= m == order@.len(),
            n == entries@.len(),
            all == stat_entries(entries@),
            p == positions(order@),
            lists_last(keys, 0, n as int, p),
            r@.len() == k,
            forall|j: int| 0 <= j < k ==> #[trigger] stat_entries(r@)[j] == all[n - 1 - p[j]],
        decreases m - k,
    {
        let ghost before = stat_entries(r@);
        assert(p[k as int] == order@[k as int]);
        let at: usize = n - 1 - order[k];
        assert(all[at as int] == entries@[at as int]@);
        let one = StatCatalogEntry {
            stat_id: entries[at].stat_id.clone(),
            text: entries[at].text.clone(),
        };
        let ghost view = one@;
        r.push(one);
        k = k + 1;
        assert(stat_entries(r@) =~= before.push(view));
    }
    proof {
        let out = stat_entries(r@);
        assert forall|a: int| 0 <= a < out.len() implies first_of_its_stat(
            all,
            #[trigger] out[a],
        ) by {
            lemma_first_of_reversed(all, keys, p, a);
            assert(is_first(all, n - 1 - p[a]) && all[n - 1 - p[a]] == out[a]);
        }
        assert forall|a: int, b: int| 0 <= a < b < out.len() implies text_before(
            (#[trigger] out[a]).stat_id,
            (#[trigger] out[b]).stat_id,
        ) by {
            assert(text_before(keys[p[a]], keys[p[b]]));
            assert(keys[p[a]] == out[a].stat_id);
            assert(keys[p[b]] == out[b].stat_id);
        }
        assert forall|x: int| 0 <= x < all.len() implies lists_stat(
            out,
            (#[trigger] all[x]).stat_id,
        ) by {
            let y = n - 1 - x;
            assert(listed_behind(keys, p, y));
            let a = choose|a: int| 0 <= a < p.len() && keys[#[trigger] p[a]] == keys[y] && p[a] >= y;
            assert(keys[p[a]] == out[a].stat_id);
            assert(keys[y] == all[x].stat_id);
        }
    }
    r
}

/// The row of a stat. `text` is the text as it is shown.
pub fn catalog_row(stat_id: String, text: String) -> (r: CatalogRow)
    ensures
        r@ == (StatView {
            stat_id: stat_id@,
            text: text@,
            stat_id_lower: unicode_lowercase(stat_id@),
            text_lower: unicode_lowercase(text@),
        }),
{
    let stat_id_lower = to_lowercase(stat_id.as_str());
    let text_lower = to_lowercase(text.as_str());
    CatalogRow { stat_id, text, stat_id_lower, text_lower }
}

proof fn lemma_catalog_ends(
    all: Seq<StatEntryView>,
    a: Seq<StatEntryView>,
    b: Seq<StatEntryView>,
    n: nat,
)
    requires
        is_catalog(all, a),
        is_catalog(all, b),
        n <= a.len(),
        n <= b.len(),
        forall|i: int| 0 <= i < n ==> a[i] == b[i],
        n < a.len(),
    ensures
        n < b.len(),
        !text_before(a[n as int].stat_id, b[n as int].stat_id),
{
    let id = a[n as int].stat_id;
    assert(first_of_its_stat(all, a[n as int]));
    let k = choose|k: int| is_first(all, k) && all[k] == a[n as int];
    assert(lists_stat(b, all[k].stat_id));
    let j = choose|j: int| 0 <= j < b.len() && (#[trigger] b[j]).stat_id == all[k].stat_id;
    lemma_before_irreflexive(id);
    if j < n {
        assert(a[j] == b[j]);
        assert(text_before(a[j].stat_id, a[n as int].stat_id));
    }
    if text_before(id, b[n as int].stat_id) {
        if n < j {
            lemma_before_transitive(id, b[n as int].stat_id, b[j].stat_id);
        }
    }
}

proof fn lemma_catalogs_agree(
    all: Seq<StatEntryView>,
    a: Seq<StatEntryView>,
    b: Seq<StatEntryView>,
    n: nat,
)
    requires
        is_catalog(all, a),
        is_catalog(all, b),
        n <= a.len(),
    ensures
        n <= b.len(),
        forall|i: int| 0 <= i < n ==> a[i] == b[i],
    decreases n,
{
    if n > 0 {
        let m = (n - 1) as nat;
        lemma_catalogs_agree(all, a, b, m);
        lemma_catalog_ends(all, a, b, m);
        lemma_catalog_ends(all, b, a, m);
        lemma_before_total(a[m as int].stat_id, b[m as int].stat_id);
        assert(first_of_its_stat(all, a[m as int]));
        assert(first_of_its_stat(all, b[m as int]));
        let x = choose|x: int| is_first(all, x) && all[x] == a[m as int];
        let y = choose|y: int| is_first(all, y) && all[y] == b[m as int];
        assert(a[m as int] == b[m as int]) by {
            if x < y {
                assert(all[x].stat_id != all[y].stat_id);
            } else if y < x {
                assert(all[y].stat_id != all[x].stat_id);
            }
        }
    }
}

/// There is only one catalog of some descriptions.
pub proof fn law_there_is_one_catalog(
    all: Seq<StatEntryView>,
    a: Seq<StatEntryView>,
    b: Seq<StatEntryView>,
)
    requires
        is_catalog(all, a),
        is_catalog(all, b),
    ensures
        a == b,
{
    lemma_catalogs_agree(all, a, b, a.len());
    if a.len() < b.len() {
        lemma_catalog_ends(all, b, a, a.len());
    }
    assert(a =~= b);
}

} // verus!
