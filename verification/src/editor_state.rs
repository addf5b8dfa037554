//! One of the two lists of the effects editor: the rows, once they are loaded,
//! the search, and the levels.

use crate::editor::{row_views, text_option, EditorRow, RowView};
use crate::overrides::{
    level_in, override_views, with_level, EffectLevel, OverrideView, Overrides,
};
use crate::search::{query_matches, terms_from, SearchQuery, TermView};
use crate::text::{same_text, texts};
use vstd::prelude::*;

verus! {

/// What the rows that are shown depend on.
#[derive(Debug)]
pub struct FilterKey {
    pub search: String,
    pub show_unnamed: bool,
    pub row_count: usize,
}

pub struct FilterView {
    pub search: Seq<char>,
    pub show_unnamed: bool,
    pub row_count: nat,
}

pub open spec fn filter_view(k: Option<FilterKey>) -> Option<FilterView> {
    match k {
        Some(k) => Some(
            FilterView {
                search: k.search@,
                show_unnamed: k.show_unnamed,
                row_count: k.row_count as nat,
            },
        ),
        None => None,
    }
}

/// One of the two lists of the effects editor.
#[derive(Debug)]
pub struct EditorState {
    pub rows: Option<Vec<EditorRow>>,
    /// The install that the rows were loaded from.
    pub rows_dir: Option<String>,
    pub loading: bool,
    pub error: Option<String>,
    pub search: String,
    pub show_unnamed: bool,
    pub filter_key: Option<FilterKey>,
    /// The rows that are shown.
    pub filter_rows: Vec<usize>,
    pub overrides: Overrides,
}

/// What a list holds.
pub struct EditorView {
    pub rows: Option<Seq<RowView>>,
    pub rows_dir: Option<Seq<char>>,
    pub loading: bool,
    pub error: Option<Seq<char>>,
    pub search: Seq<char>,
    pub show_unnamed: bool,
    pub filter_key: Option<FilterView>,
    pub filter_rows: Seq<usize>,
    pub overrides: Map<Seq<char>, EffectLevel>,
}

impl View for EditorState {
    type V = EditorView;

    open spec fn view(&self) -> EditorView {
        EditorView {
            rows: match self.rows {
                Some(rows) => Some(row_views(rows@)),
                None => None,
            },
            rows_dir: text_option(self.rows_dir),
            loading: self.loading,
            error: text_option(self.error),
            search: self.search@,
            show_unnamed: self.show_unnamed,
            filter_key: filter_view(self.filter_key),
            filter_rows: self.filter_rows@,
            overrides: self.overrides@,
        }
    }
}

impl EditorView {
    /// The rows, as far as they are loaded.
    pub open spec fn all_rows(self) -> Seq<RowView> {
        match self.rows {
            Some(rows) => rows,
            None => Seq::empty(),
        }
    }

    /// What the rows that are shown now depend on.
    pub open spec fn key(self) -> FilterView {
        FilterView {
            search: self.search,
            show_unnamed: self.show_unnamed,
            row_count: self.all_rows().len(),
        }
    }

    /// Whether the rows that are shown are those that ought to be.
    pub open spec fn is_fresh(self) -> bool {
        self.filter_key == Some(self.key())
    }
}

/// Of the first `n` rows those that the query finds, without those that have no
/// name, unless these are to be shown.
pub open spec fn shown(rows: Seq<RowView>, hits: Seq<bool>, show_unnamed: bool, n: nat) -> Seq<
    usize,
>
    decreases n,
{
    if n == 0 {
        Seq::empty()
    } else {
        let before = shown(rows, hits, show_unnamed, (n - 1) as nat);
        if hits[n - 1] && (rows[n - 1].named || show_unnamed) {
            before.push((n - 1) as usize)
        } else {
            before
        }
    }
}

proof fn lemma_shown(rows: Seq<RowView>, hits: Seq<bool>, show_unnamed: bool, n: nat)
    requires
        n <= usize::MAX,
    ensures
        forall|i: int|
            0 <= i < shown(rows, hits, show_unnamed, n).len() ==> #[trigger] shown(
                rows,
                hits,
                show_unnamed,
                n,
            )[i] < n,
    decreases n,
{
    if n > 0 {
        lemma_shown(rows, hits, show_unnamed, (n - 1) as nat);
        let before = shown(rows, hits, show_unnamed, (n - 1) as nat);
        let now = shown(rows, hits, show_unnamed, n);
        assert forall|i: int| 0 <= i < now.len() implies #[trigger] now[i] < n by {
            if i < before.len() {
                assert(now[i] == before[i]);
            }
        }
    }
}

/// Which rows a query finds.
pub open spec fn row_hits(terms: Seq<TermView>, rows: Seq<RowView>) -> Seq<bool> {
    rows.map_values(|row: RowView| query_matches(terms, row.search_lower, row.display_lower))
}

/// The rows that the search of a list shows.
pub open spec fn filtered(v: EditorView) -> Seq<usize> {
    shown(
        v.all_rows(),
        row_hits(terms_from(v.search, 0), v.all_rows()),
        v.show_unnamed,
        v.all_rows().len(),
    )
}

/// The levels with those of the first `n` keys set.
pub open spec fn keys_set(
    m: Map<Seq<char>, EffectLevel>,
    keys: Seq<Seq<char>>,
    level: EffectLevel,
    n: nat,
) -> Map<Seq<char>, EffectLevel>
    decreases n,
{
    if n == 0 {
        m
    } else {
        with_level(keys_set(m, keys, level, (n - 1) as nat), keys[n - 1], level)
    }
}

/// The levels with those of the first `n` of the chosen rows set.
pub open spec fn rows_set(
    m: Map<Seq<char>, EffectLevel>,
    rows: Seq<RowView>,
    chosen: Seq<usize>,
    level: EffectLevel,
    n: nat,
) -> Map<Seq<char>, EffectLevel>
    decreases n,
{
    if n == 0 {
        m
    } else {
        let keys = rows[chosen[n - 1] as int].keys;
        keys_set(rows_set(m, rows, chosen, level, (n - 1) as nat), keys, level, keys.len())
    }
}

/// The level that all keys have in common, if they have one.
pub open spec fn common_level(m: Map<Seq<char>, EffectLevel>, keys: Seq<Seq<char>>) -> Option<
    EffectLevel,
> {
    if keys.len() == 0 {
        None
    } else if forall|i: int|
        0 <= i < keys.len() ==> level_in(m, #[trigger] keys[i]) == level_in(m, keys[0]) {
        Some(level_in(m, keys[0]))
    } else {
        None
    }
}

/// Whether one of the keys has a level of its own.
pub open spec fn has_override(m: Map<Seq<char>, EffectLevel>, keys: Seq<Seq<char>>) -> bool {
    exists|i: int| 0 <= i < keys.len() && m.contains_key(#[trigger] keys[i])
}

/// How many of the first `n` rows have a key with a level of its own.
pub open spec fn kept_rows(rows: Seq<RowView>, m: Map<Seq<char>, EffectLevel>, n: nat) -> nat
    decreases n,
{
    if n == 0 {
        0
    } else {
        kept_rows(rows, m, (n - 1) as nat) + if has_override(m, rows[n - 1].keys) {
            1nat
        } else {
            0
        }
    }
}

/// Whether a row has that key.
pub open spec fn is_listed(rows: Seq<RowView>, key: Seq<char>) -> bool {
    exists|i: int| 0 <= i < rows.len() && (#[trigger] rows[i]).keys.contains(key)
}

/// How many of the first `n` overrides keep an effect that no row has.
pub open spec fn kept_keys(rows: Seq<RowView>, s: Seq<OverrideView>, n: nat) -> nat
    decreases n,
{
    if n == 0 {
        0
    } else {
        kept_keys(rows, s, (n - 1) as nat) + if s[n - 1].level is Full && !is_listed(
            rows,
            s[n - 1].key,
        ) {
            1nat
        } else {
            0
        }
    }
}

/// How many of the first `n` rows have no name.
pub open spec fn unnamed_rows(rows: Seq<RowView>, n: nat) -> nat
    decreases n,
{
    if n == 0 {
        0
    } else {
        unnamed_rows(rows, (n - 1) as nat) + if rows[n - 1].named {
            0nat
        } else {
            1
        }
    }
}

/// How many of the first `n` rows have no name but a key with a level of its own.
pub open spec fn kept_unnamed_rows(rows: Seq<RowView>, m: Map<Seq<char>, EffectLevel>, n: nat) -> nat
    decreases n,
{
    if n == 0 {
        0
    } else {
        kept_unnamed_rows(rows, m, (n - 1) as nat) + if !rows[n - 1].named && has_override(
            m,
            rows[n - 1].keys,
        ) {
            1nat
        } else {
            0
        }
    }
}

fn same_dir(a: &Option<String>, b: &Option<String>) -> (r: bool)
    ensures
        r == (text_option(*a) == text_option(*b)),
{
    match (a, b) {
        (None, None) => true,
        (Some(x), Some(y)) => same_text(x.as_str(), y.as_str()),
        _ => false,
    }
}

fn copy_dir(a: &Option<String>) -> (r: Option<String>)
    ensures
        text_option(r) == text_option(*a),
{
    match a {
        Some(x) => Some(x.clone()),
        None => None,
    }
}

fn any_override(overrides: &Overrides, keys: &Vec<String>) -> (r: bool)
    requires
        overrides.wf(),
    ensures
        r == has_override(overrides@, texts(keys@)),
{
    let n: usize = keys.len();
    let mut i: usize = 0;
    while i < n
        invariant
            i <= n == keys@.len(),
            overrides.wf(),
            forall|k: int| 0 <= k < i ==> !overrides@.contains_key(#[trigger] texts(keys@)[k]),
        decreases n - i,
    {
        assert(texts(keys@)[i as int] == keys@[i as int]@);
        if overrides.get(keys[i].as_str()).is_some() {
            return true;
        }
        i = i + 1;
    }
    false
}

fn set_keys(overrides: &mut Overrides, keys: &Vec<String>, level: EffectLevel)
    requires
        old(overrides).wf(),
    ensures
        final(overrides).wf(),
        final(overrides)@ == keys_set(old(overrides)@, texts(keys@), level, keys@.len()),
{
    let ghost start = overrides@;
    let n: usize = keys.len();
    let mut i: usize = 0;
    while i < n
        invariant
            i <= n == keys@.len(),
            overrides.wf(),
            overrides@ == keys_set(start, texts(keys@), level, i as nat),
        decreases n - i,
    {
        assert(texts(keys@)[i as int] == keys@[i as int]@);
        overrides.set_level(keys[i].as_str(), level);
        i = i + 1;
    }
}

fn lists_key(rows: &Vec<EditorRow>, key: &str) -> (r: bool)
    ensures
        r == is_listed(row_views(rows@), key@),
{
    let ghost views = row_views(rows@);
    let n: usize = rows.len();
    let mut i: usize = 0;
    while i < n
        invariant
            i <= n == rows@.len(),
            views == row_views(rows@),
            forall|k: int| 0 <= k < i ==> !(#[trigger] views[k]).keys.contains(key@),
        decreases n - i,
    {
        assert(views[i as int] == rows@[i as int]@);
        if crate::text::contains_string(&rows[i].keys, key) {
            return true;
        }
        i = i + 1;
    }
    false
}

impl EditorState {
    /// Whether the levels are in order, the rows are loaded only while they are not
    /// there, and the shown rows exist where they are up to date.
    pub open spec fn wf(&self) -> bool {
        &&& self.overrides.wf()
        &&& self@.loading ==> self@.rows is None
        &&& self@.rows is None && self@.filter_key is Some ==> self@.filter_key->0.row_count == 0
        &&& match self@.filter_key {
            Some(key) => key.row_count == self@.all_rows().len() ==> forall|i: int|
                0 <= i < self.filter_rows@.len() ==> (#[trigger] self.filter_rows@[i])
                    < self@.all_rows().len(),
            None => true,
        }
    }

    /// An empty list with the given levels.
    pub fn new(overrides: Overrides) -> (r: EditorState)
        requires
            overrides.wf(),
        ensures
            r.wf(),
            r@.rows is None,
            r@.rows_dir is None,
            !r@.loading,
            r@.error is None,
            r@.search.len() == 0,
            !r@.show_unnamed,
            r@.filter_key is None,
            r@.filter_rows.len() == 0,
            r@.overrides == overrides@,
    {
        let r = EditorState {
            rows: None,
            rows_dir: None,
            loading: false,
            error: None,
            search: String::new(),
            show_unnamed: false,
            filter_key: None,
            filter_rows: Vec::new(),
            overrides,
        };
        assert(r.search@ =~= Seq::<char>::empty());
        r
    }

    fn row_count(&self) -> (r: usize)
        ensures
            r == self@.all_rows().len(),
    {
        match &self.rows {
            Some(rows) => rows.len(),
            None => 0,
        }
    }

    fn filter(&self) -> (r: Vec<usize>)
        ensures
            r@ == filtered(self@),
    {
        let ghost all = self@.all_rows();
        let query = SearchQuery::parse(self.search.as_str());
        let ghost hits = row_hits(query@, all);
        let mut r: Vec<usize> = Vec::new();
        match &self.rows {
            None => {
                assert(r@ =~= shown(all, hits, self@.show_unnamed, all.len()));
            },
            Some(rows) => {
                let n: usize = rows.len();
                let mut i: usize = 0;
                while i < n
                    invariant
                        i <= n == rows@.len(),
                        all == row_views(rows@),
                        hits == row_hits(query@, all),
                        r@ == shown(all, hits, self.show_unnamed, i as nat),
                    decreases n - i,
                {
                    assert(all[i as int] == rows@[i as int]@);
                    let hit: bool = query.matches(
                        rows[i].search_lower.as_str(),
                        rows[i].display_lower.as_str(),
                    );
                    if hit && (rows[i].named || self.show_unnamed) {
                        r.push(i);
                    }
                    i = i + 1;
                }
            },
        }
        r
    }

    /// Brings the shown rows up to date. What is up to date stays.
    pub fn refresh_filter(&mut self)
        requires
            old(self).wf(),
        ensures
            final(self).wf(),
            final(self)@.is_fresh(),
            old(self)@.is_fresh() ==> *final(self) == *old(self),
            !old(self)@.is_fresh() ==> final(self)@.filter_rows == filtered(old(self)@),
            final(self)@ == (EditorView {
                filter_key: final(self)@.filter_key,
                filter_rows: final(self)@.filter_rows,
                ..old(self)@
            }),
    {
        let count: usize = self.row_count();
        let fresh: bool = match &self.filter_key {
            Some(key) => same_text(key.search.as_str(), self.search.as_str())
                && key.show_unnamed == self.show_unnamed && key.row_count == count,
            None => false,
        };
        if fresh {
            return;
        }
        let ghost all = self@.all_rows();
        let rows = self.filter();
        proof {
            let hits = row_hits(terms_from(self@.search, 0), all);
            lemma_shown(all, hits, self@.show_unnamed, all.len());
        }
        self.filter_rows = rows;
        self.filter_key = Some(
            FilterKey {
                search: self.search.clone(),
                show_unnamed: self.show_unnamed,
                row_count: count,
            },
        );
    }

    /// Sets the level of all rows that are shown.
    pub fn apply_level_to_filtered_rows(&mut self, level: EffectLevel)
        requires
            old(self).wf(),
        ensures
            final(self).wf(),
            final(self)@.is_fresh(),
            old(self)@.is_fresh() ==> final(self)@.filter_rows == old(self)@.filter_rows,
            !old(self)@.is_fresh() ==> final(self)@.filter_rows == filtered(old(self)@),
            final(self)@ == (EditorView {
                filter_key: final(self)@.filter_key,
                filter_rows: final(self)@.filter_rows,
                overrides: rows_set(
                    old(self)@.overrides,
                    old(self)@.all_rows(),
                    final(self)@.filter_rows,
                    level,
                    final(self)@.filter_rows.len(),
                ),
                ..old(self)@
            }),
    {
        self.refresh_filter();
        let ghost ready = self@;
        let ghost all = self@.all_rows();
        let mut overrides = Overrides::new();
        std::mem::swap(&mut overrides, &mut self.overrides);
        let ghost start = overrides@;
        let n: usize = self.filter_rows.len();
        let mut i: usize = 0;
        match &self.rows {
            None => {
                assert(n == 0) by {
                    if n > 0 {
                        assert(self.filter_rows@[0] < all.len());
                    }
                }
            },
            Some(rows) => {
                while i < n
                    invariant
                        i <= n == self.filter_rows@.len(),
                        all == row_views(rows@),
                        forall|k: int|
                            0 <= k < n ==> (#[trigger] self.filter_rows@[k]) < all.len(),
                        overrides.wf(),
                        overrides@ == rows_set(
                            start,
                            all,
                            self.filter_rows@,
                            level,
                            i as nat,
                        ),
                    decreases n - i,
                {
                    let at: usize = self.filter_rows[i];
                    assert(at < all.len());
                    assert(all[at as int] == rows@[at as int]@);
                    set_keys(&mut overrides, &rows[at].keys, level);
                    i = i + 1;
                }
            },
        }
        self.overrides = overrides;
    }

    /// The level that the keys have in common, if they have one.
    pub fn level_for_keys(&self, keys: &Vec<String>) -> (r: Option<EffectLevel>)
        requires
            self.wf(),
        ensures
            r == common_level(self@.overrides, texts(keys@)),
    {
        let n: usize = keys.len();
        if n == 0 {
            return None;
        }
        assert(texts(keys@)[0] == keys@[0]@);
        let first: EffectLevel = self.overrides.level(keys[0].as_str());
        let mut i: usize = 1;
        while i < n
            invariant
                1 <= i <= n == keys@.len(),
                self.wf(),
                first == level_in(self.overrides@, texts(keys@)[0]),
                forall|k: int|
                    0 <= k < i ==> level_in(self.overrides@, #[trigger] texts(keys@)[k]) == first,
            decreases n - i,
        {
            assert(texts(keys@)[i as int] == keys@[i as int]@);
            let level: EffectLevel = self.overrides.level(keys[i].as_str());
            if level != first {
                return None;
            }
            i = i + 1;
        }
        Some(first)
    }

    /// How many effects are kept: rows with a key that has a level of its own, and
    /// kept keys that no row has.
    pub fn kept_original_count(&self) -> (r: usize)
        requires
            self.wf(),
            self@.all_rows().len() + self.overrides.entries@.len() <= usize::MAX,
        ensures
            r == kept_rows(self@.all_rows(), self@.overrides, self@.all_rows().len()) + kept_keys(
                self@.all_rows(),
                override_views(self.overrides.entries@),
                self.overrides.entries@.len(),
            ),
    {
        let ghost all = self@.all_rows();
        let ghost entries = override_views(self.overrides.entries@);
        let empty: Vec<EditorRow> = Vec::new();
        assert(row_views(empty@) =~= Seq::<RowView>::empty());
        let rows: &Vec<EditorRow> = match &self.rows {
            Some(rows) => rows,
            None => &empty,
        };
        assert(all == row_views(rows@));
        let n: usize = rows.len();
        let mut total: usize = 0;
        let mut i: usize = 0;
        while i < n
            invariant
                i <= n == rows@.len(),
                all == row_views(rows@),
                self.wf(),
                total == kept_rows(all, self.overrides@, i as nat),
                total <= i,
            decreases n - i,
        {
            assert(all[i as int] == rows@[i as int]@);
            if any_override(&self.overrides, &rows[i].keys) {
                total = total + 1;
            }
            i = i + 1;
        }
        let ghost in_rows = total;
        let m: usize = self.overrides.entries.len();
        let mut k: usize = 0;
        while k < m
            invariant
                k <= m == self.overrides.entries@.len(),
                all == row_views(rows@),
                entries == override_views(self.overrides.entries@),
                in_rows <= n,
                n + m <= usize::MAX,
                total == in_rows + kept_keys(all, entries, k as nat),
                total <= in_rows + k,
            decreases m - k,
        {
            assert(entries[k as int] == self.overrides.entries@[k as int]@);
            let full: bool = match self.overrides.entries[k].level {
                EffectLevel::Full => true,
                EffectLevel::Reduced => false,
            };
            if full && !lists_key(rows, self.overrides.entries[k].key.as_str()) {
                total = total + 1;
            }
            k = k + 1;
        }
        total
    }

    /// How many rows have no name.
    pub fn unnamed_row_count(&self) -> (r: usize)
        ensures
            r == unnamed_rows(self@.all_rows(), self@.all_rows().len()),
    {
        match &self.rows {
            None => 0,
            Some(rows) => {
                let ghost all = row_views(rows@);
                let n: usize = rows.len();
                let mut total: usize = 0;
                let mut i: usize = 0;
                while i < n
                    invariant
                        i <= n == rows@.len(),
                        all == row_views(rows@),
                        total == unnamed_rows(all, i as nat),
                        total <= i,
                    decreases n - i,
                {
                    assert(all[i as int] == rows@[i as int]@);
                    if !rows[i].named {
                        total = total + 1;
                    }
                    i = i + 1;
                }
                total
            },
        }
    }

    /// How many rows have no name but a key with a level of its own.
    pub fn overridden_unnamed_row_count(&self) -> (r: usize)
        requires
            self.wf(),
        ensures
            r == kept_unnamed_rows(self@.all_rows(), self@.overrides, self@.all_rows().len()),
    {
        match &self.rows {
            None => 0,
            Some(rows) => {
                let ghost all = row_views(rows@);
                let n: usize = rows.len();
                let mut total: usize = 0;
                let mut i: usize = 0;
                while i < n
                    invariant
                        i <= n == rows@.len(),
                        all == row_views(rows@),
                        self.wf(),
                        total == kept_unnamed_rows(all, self.overrides@, i as nat),
                        total <= i,
                    decreases n - i,
                {
                    assert(all[i as int] == rows@[i as int]@);
                    if !rows[i].named && any_override(&self.overrides, &rows[i].keys) {
                        total = total + 1;
                    }
                    i = i + 1;
                }
                total
            },
        }
    }

    /// Drops the rows, and what was found in them, if they come from another
    /// install. The levels stay.
    pub fn invalidate_if_stale(&mut self, game_dir: &Option<String>)
        requires
            old(self).wf(),
        ensures
            final(self).wf(),
            old(self)@.rows_dir == text_option(*game_dir) ==> *final(self) == *old(self),
            old(self)@.rows_dir != text_option(*game_dir) ==> final(self)@ == (EditorView {
                rows: None,
                loading: false,
                error: None,
                filter_key: None,
                filter_rows: Seq::empty(),
                ..old(self)@
            }),
    {
        if !same_dir(&self.rows_dir, game_dir) {
            self.rows = None;
            self.loading = false;
            self.error = None;
            self.filter_key = None;
            self.filter_rows = Vec::new();
            assert(self.filter_rows@ =~= Seq::<usize>::empty());
        }
    }

    /// Whether the rows of an install are to be loaded now. They are not where they
    /// are there or being loaded.
    pub fn start_loading(&mut self, game_dir: &Option<String>) -> (r: bool)
        requires
            old(self).wf(),
        ensures
            final(self).wf(),
            ({
                let stale = old(self)@.rows_dir != text_option(*game_dir);
                &&& r == (stale || (old(self)@.rows is None && !old(self)@.loading))
                &&& final(self)@.overrides == old(self)@.overrides
                &&& !r ==> *final(self) == *old(self)
                &&& r ==> final(self)@.rows is None && final(self)@.loading && final(self)@.error
                    is None && final(self)@.rows_dir == text_option(*game_dir)
                &&& r ==> final(self)@.search == old(self)@.search && final(self)@.show_unnamed
                    == old(self)@.show_unnamed
                &&& r && !stale ==> final(self)@.filter_rows == old(self)@.filter_rows
                    && final(self)@.filter_key == old(self)@.filter_key
                &&& stale ==> final(self)@.filter_key is None && final(self)@.filter_rows.len()
                    == 0
            }),
    {
        self.invalidate_if_stale(game_dir);
        if self.rows.is_some() || self.loading {
            return false;
        }
        self.error = None;
        self.loading = true;
        self.rows_dir = copy_dir(game_dir);
        true
    }

    /// Takes the rows that were loaded, or what went wrong.
    pub fn finish_loading(&mut self, result: Result<Vec<EditorRow>, String>)
        requires
            old(self).wf(),
            old(self)@.loading,
        ensures
            final(self).wf(),
            match result {
                Ok(rows) => final(self)@ == (EditorView {
                    rows: Some(row_views(rows@)),
                    loading: false,
                    ..old(self)@
                }),
                Err(e) => final(self)@ == (EditorView {
                    loading: false,
                    error: Some(e@),
                    ..old(self)@
                }),
            },
    {
        self.loading = false;
        match result {
            Ok(rows) => {
                self.rows = Some(rows);
            },
            Err(e) => {
                self.error = Some(e);
            },
        }
    }
}

proof fn lemma_keys_set_other(
    m: Map<Seq<char>, EffectLevel>,
    keys: Seq<Seq<char>>,
    level: EffectLevel,
    n: nat,
    key: Seq<char>,
)
    requires
        n <= keys.len(),
        !keys.contains(key),
    ensures
        level_in(keys_set(m, keys, level, n), key) == level_in(m, key),
    decreases n,
{
    if n > 0 {
        lemma_keys_set_other(m, keys, level, (n - 1) as nat, key);
        assert(keys[n - 1] != key);
    }
}

/// Setting the level of rows changes no other effects.
pub proof fn law_other_effects_keep_their_level(
    m: Map<Seq<char>, EffectLevel>,
    rows: Seq<RowView>,
    chosen: Seq<usize>,
    level: EffectLevel,
    n: nat,
    key: Seq<char>,
)
    requires
        n <= chosen.len(),
        forall|i: int|
            0 <= i < n ==> !rows[#[trigger] chosen[i] as int].keys.contains(key),
    ensures
        level_in(rows_set(m, rows, chosen, level, n), key) == level_in(m, key),
    decreases n,
{
    if n > 0 {
        law_other_effects_keep_their_level(m, rows, chosen, level, (n - 1) as nat, key);
        let keys = rows[chosen[n - 1] as int].keys;
        lemma_keys_set_other(
            rows_set(m, rows, chosen, level, (n - 1) as nat),
            keys,
            level,
            keys.len(),
            key,
        );
    }
}

proof fn lemma_keys_set_one(
    m: Map<Seq<char>, EffectLevel>,
    keys: Seq<Seq<char>>,
    level: EffectLevel,
    n: nat,
    k: int,
)
    requires
        0 <= k < n <= keys.len(),
    ensures
        level_in(keys_set(m, keys, level, n), keys[k]) == level,
    decreases n,
{
    if k < n - 1 {
        lemma_keys_set_one(m, keys, level, (n - 1) as nat, k);
    }
}

proof fn lemma_rows_set_keeps(
    m: Map<Seq<char>, EffectLevel>,
    keys: Seq<Seq<char>>,
    level: EffectLevel,
    n: nat,
    key: Seq<char>,
)
    requires
        n <= keys.len(),
        level_in(m, key) == level,
    ensures
        level_in(keys_set(m, keys, level, n), key) == level,
    decreases n,
{
    if n > 0 {
        lemma_rows_set_keeps(m, keys, level, (n - 1) as nat, key);
    }
}

/// Setting the level of rows sets that of each of their effects.
pub proof fn law_chosen_effects_have_the_level(
    m: Map<Seq<char>, EffectLevel>,
    rows: Seq<RowView>,
    chosen: Seq<usize>,
    level: EffectLevel,
    n: nat,
    i: int,
    k: int,
)
    requires
        0 <= i < n <= chosen.len(),
        0 <= k < rows[chosen[i] as int].keys.len(),
    ensures
        level_in(rows_set(m, rows, chosen, level, n), rows[chosen[i] as int].keys[k]) == level,
    decreases n,
{
    let keys = rows[chosen[n - 1] as int].keys;
    let before = rows_set(m, rows, chosen, level, (n - 1) as nat);
    if i < n - 1 {
        law_chosen_effects_have_the_level(m, rows, chosen, level, (n - 1) as nat, i, k);
        lemma_rows_set_keeps(before, keys, level, keys.len(), rows[chosen[i] as int].keys[k]);
    } else {
        lemma_keys_set_one(before, keys, level, keys.len(), k);
    }
}

} // verus!
