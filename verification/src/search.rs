//! Search queries as the game's own search bar has them: terms between white
//! space, all of which have to match. Each term is a regular expression that
//! ignores case; quotes keep white space inside a term; an exclamation mark, in
//! front of the quotes or inside them, turns a term around.
//!
//! A term also matches as plain text. So pasted ids match that happen to be a
//! regular expression that does not match itself, and so do terms that are no
//! regular expression at all.

use crate::text::{
    blank, char_range, chars_of, contains_text, has_text, index_of_char, is_whitespace,
    lemma_index_of_char, position_of_char, string_of, to_lowercase, unicode_lowercase,
    unicode_whitespace,
};
use vstd::prelude::*;

verus! {

/// A term of a query.
pub struct Term {
    /// Whether the term must not match.
    pub negated: bool,
    /// The term as it was written.
    pub text: String,
    /// The term in lower case.
    pub literal: String,
}

pub struct TermView {
    pub negated: bool,
    pub text: Seq<char>,
    pub literal: Seq<char>,
}

impl View for Term {
    type V = TermView;

    open spec fn view(&self) -> TermView {
        TermView { negated: self.negated, text: self.text@, literal: self.literal@ }
    }
}

pub open spec fn term_views(v: Seq<Term>) -> Seq<TermView> {
    v.map_values(|t: Term| t@)
}

/// A query: its terms.
pub struct SearchQuery {
    pub terms: Vec<Term>,
}

impl View for SearchQuery {
    type V = Seq<TermView>;

    open spec fn view(&self) -> Seq<TermView> {
        term_views(self.terms@)
    }
}

/// The first character from `i` on that is white space, or that is not; or the
/// end.
pub open spec fn first_space(q: Seq<char>, i: int, space: bool) -> int
    decreases q.len() - i,
{
    if i < 0 || i >= q.len() {
        q.len() as int
    } else if unicode_whitespace(q[i]) == space {
        i
    } else {
        first_space(q, i + 1, space)
    }
}

pub proof fn lemma_first_space(q: Seq<char>, i: int, space: bool)
    requires
        0 <= i <= q.len(),
    ensures
        i <= first_space(q, i, space) <= q.len(),
        first_space(q, i, space) < q.len() ==> unicode_whitespace(q[first_space(q, i, space)])
            == space,
        forall|k: int|
            i <= k < first_space(q, i, space) ==> unicode_whitespace(#[trigger] q[k]) != space,
    decreases q.len() - i,
{
    if i < q.len() && unicode_whitespace(q[i]) != space {
        lemma_first_space(q, i + 1, space);
    }
}

/// Where what stands at `j`, quoted or not, begins and ends, and where the query
/// goes on behind it. A quote that is not closed reaches to the end.
pub open spec fn word_at(q: Seq<char>, j: int) -> (int, int, int) {
    if j < q.len() && q[j] == '"' {
        let close = index_of_char(q, '"', j + 1);
        (j + 1, close, if close < q.len() { close + 1 } else { close })
    } else {
        let end = first_space(q, j, true);
        (j, end, end)
    }
}

pub proof fn lemma_word_at(q: Seq<char>, j: int)
    requires
        0 <= j <= q.len(),
    ensures
        ({
            let (start, end, next) = word_at(q, j);
            &&& j <= start <= end <= next <= q.len()
            &&& j < q.len() && !unicode_whitespace(q[j]) ==> next > j
        }),
{
    if j < q.len() && q[j] == '"' {
        lemma_index_of_char(q, '"', j + 1);
    } else {
        lemma_first_space(q, j, true);
    }
}

/// The terms of the query from `pos` on.
pub open spec fn terms_from(q: Seq<char>, pos: int) -> Seq<TermView>
    decreases q.len() - pos,
{
    let i = first_space(q, pos, false);
    if pos < 0 || i >= q.len() {
        Seq::empty()
    } else {
        let bang = q[i] == '!';
        let (start, end, next) = word_at(q, if bang { i + 1 } else { i });
        proof {
            lemma_first_space(q, pos, false);
            lemma_word_at(q, if bang { i + 1 } else { i });
        }
        let inner = start < end && q[start] == '!';
        let text = q.subrange(if inner { start + 1 } else { start }, end);
        let rest = terms_from(q, next);
        if text.len() == 0 {
            rest
        } else {
            seq![
                TermView {
                    negated: bang || inner,
                    text,
                    literal: unicode_lowercase(text),
                },
            ] + rest
        }
    }
}

fn skip_to(q: &[char], i: usize, space: bool) -> (r: usize)
    requires
        i <= q@.len(),
    ensures
        r == first_space(q@, i as int, space),
        i <= r <= q@.len(),
{
    proof {
        lemma_first_space(q@, i as int, space);
    }
    let n: usize = q.len();
    let mut k: usize = i;
    while k < n
        invariant
            i <= k <= n == q@.len(),
            first_space(q@, i as int, space) == first_space(q@, k as int, space),
        decreases n - k,
    {
        if is_whitespace(q[k]) == space {
            return k;
        }
        k = k + 1;
    }
    n
}

fn find_word(q: &[char], j: usize) -> (r: (usize, usize, usize))
    requires
        j <= q@.len(),
    ensures
        word_at(q@, j as int) == (r.0 as int, r.1 as int, r.2 as int),
        j <= r.0 <= r.1 <= r.2 <= q@.len(),
{
    proof {
        lemma_word_at(q@, j as int);
    }
    let n: usize = q.len();
    if j < n && q[j] == '"' {
        let close: usize = position_of_char(q, '"', j + 1);
        if close < n {
            (j + 1, close, close + 1)
        } else {
            (j + 1, close, close)
        }
    } else {
        let end: usize = skip_to(q, j, true);
        (j, end, end)
    }
}

/// What a search for a pattern in a text finds, `Regex::is_match`: whether some
/// part of the text matches.
pub uninterp spec fn regex_found(
    pattern: Seq<char>,
    case_insensitive: bool,
    text: Seq<char>,
) -> bool;

/// Whether `RegexBuilder::build` compiles a pattern. It does not where the pattern
/// is none, nor where the compiled pattern would take more than `size_limit` bytes;
/// how many bytes it takes depends on how many bits the machine has in a word.
pub uninterp spec fn regex_compiles(
    pattern: Seq<char>,
    case_insensitive: bool,
    size_limit: nat,
    word_bits: nat,
) -> bool;

/// Whether a backslash makes a character stand for itself.
pub open spec fn escapable(c: char) -> bool {
    c == '\\' || c == '.' || c == '+' || c == '*' || c == '?' || c == '(' || c == ')' || c == '|'
        || c == '[' || c == ']' || c == '{' || c == '}' || c == '^' || c == '$' || c == '#' || c
        == '&' || c == '-' || c == '~'
}

/// Whether the pattern goes on from `i` on as a simple one. `open` parentheses are
/// open, and `item` says whether something stands before `i` that can be repeated.
pub open spec fn simple_from(p: Seq<char>, i: int, open: nat, item: bool) -> bool
    decreases p.len() - i,
{
    if i < 0 || i >= p.len() {
        open == 0
    } else {
        let c = p[i];
        if c == '\\' {
            i + 1 < p.len() && escapable(p[i + 1]) && simple_from(p, i + 2, open, true)
        } else if c == '(' {
            simple_from(p, i + 1, open + 1, false)
        } else if c == ')' {
            open > 0 && simple_from(p, i + 1, (open - 1) as nat, true)
        } else if c == '*' || c == '+' || c == '?' {
            item && simple_from(p, i + 1, open, false)
        } else if c == '|' || c == '^' || c == '$' {
            simple_from(p, i + 1, open, false)
        } else if c == '[' || c == ']' || c == '{' || c == '}' {
            false
        } else {
            ' ' <= c <= '~' && simple_from(p, i + 1, open, true)
        }
    }
}

/// A short pattern of printable ASCII characters, dots, alternatives, anchors,
/// groups that are closed, and characters, dots and groups that are repeated or
/// optional; without classes, counted repetitions and flags.
pub open spec fn simple_pattern(pattern: Seq<char>) -> bool {
    pattern.len() <= 256 && simple_from(pattern, 0, 0, false)
}

/// `regex::RegexBuilder` with `case_insensitive` and `size_limit`, and
/// `Regex::is_match` on two texts. `None` says that the pattern does not compile.
///
/// Whether it compiles is a function of the pattern, the flag, the limit and the
/// size of a word. A simple pattern compiles below a limit of a mebibyte or more:
/// the parser has no error for what it is made of, 256 characters nest less deep
/// than the parser allows, no part of it is compiled more than once in a
/// direction, and what takes most, a dot, takes less than 30 states of at most 32
/// bytes.
#[verifier::external_body]
fn regex_search(
    pattern: &str,
    case_insensitive: bool,
    size_limit: usize,
    first: &str,
    second: &str,
) -> (r: Option<(bool, bool)>)
    ensures
        r is Some == regex_compiles(
            pattern@,
            case_insensitive,
            size_limit as nat,
            usize::BITS as nat,
        ),
        r matches Some(found) ==> found.0 == regex_found(pattern@, case_insensitive, first@)
            && found.1 == regex_found(pattern@, case_insensitive, second@),
        simple_pattern(pattern@) && size_limit >= 1048576 ==> r is Some,
{
    regex::RegexBuilder::new(pattern)
        .case_insensitive(case_insensitive)
        .size_limit(size_limit)
        .build()
        .ok()
        .map(|re| (re.is_match(first), re.is_match(second)))
}

/// Whether a term finds something, given what its regular expression finds in
/// the two fields.
pub open spec fn term_hits(
    term: TermView,
    regex_hit: bool,
    id: Seq<char>,
    text: Seq<char>,
) -> bool {
    regex_hit || contains_text(id, term.literal) || contains_text(text, term.literal)
}

/// Whether all terms match, given what their regular expressions find.
pub open spec fn all_terms_match(
    terms: Seq<TermView>,
    regex_hits: Seq<bool>,
    id: Seq<char>,
    text: Seq<char>,
) -> bool {
    forall|i: int|
        0 <= i < terms.len() ==> term_hits(#[trigger] terms[i], regex_hits[i], id, text)
            != terms[i].negated
}

/// Whether the regular expression of a term compiles.
pub open spec fn term_compiles(term: TermView) -> bool {
    regex_compiles(term.text, true, 1048576, usize::BITS as nat)
}

/// Whether the regular expression of a term finds something in one of the fields.
pub open spec fn regex_hit(term: TermView, id: Seq<char>, text: Seq<char>) -> bool {
    term_compiles(term) && (regex_found(term.text, true, id) || regex_found(term.text, true, text))
}

/// What the regular expressions of the terms find.
pub open spec fn regex_hits_of(terms: Seq<TermView>, id: Seq<char>, text: Seq<char>) -> Seq<bool> {
    Seq::new(terms.len(), |i: int| regex_hit(terms[i], id, text))
}

/// Whether two fields match a query.
pub open spec fn query_matches(terms: Seq<TermView>, id: Seq<char>, text: Seq<char>) -> bool {
    all_terms_match(terms, regex_hits_of(terms, id, text), id, text)
}

/// Whether the terms that are simple patterns compile.
pub open spec fn simple_terms_compile(terms: Seq<TermView>) -> bool {
    forall|i: int|
        0 <= i < terms.len() && simple_pattern((#[trigger] terms[i]).text) ==> term_compiles(
            terms[i],
        )
}

impl SearchQuery {
    /// The terms of a query.
    pub fn parse(query: &str) -> (r: SearchQuery)
        ensures
            r@ == terms_from(query@, 0),
    {
        let q = chars_of(query);
        let q = q.as_slice();
        let n: usize = q.len();
        let mut terms: Vec<Term> = Vec::new();
        let mut pos: usize = 0;
        assert(term_views(terms@) + terms_from(query@, 0) =~= terms_from(query@, 0));
        loop
            invariant
                pos <= n == q@.len(),
                q@ == query@,
                terms_from(query@, 0) == term_views(terms@) + terms_from(query@, pos as int),
            decreases n - pos,
        {
            let ghost before = term_views(terms@);
            let i: usize = skip_to(q, pos, false);
            if i >= n {
                assert(term_views(terms@) + terms_from(query@, pos as int) =~= term_views(terms@));
                return SearchQuery { terms };
            }
            let bang: bool = q[i] == '!';
            let j: usize = if bang {
                i + 1
            } else {
                i
            };
            proof {
                lemma_first_space(q@, pos as int, false);
                lemma_word_at(q@, j as int);
            }
            let (start, end, next) = find_word(q, j);
            let inner: bool = start < end && q[start] == '!';
            let from: usize = if inner {
                start + 1
            } else {
                start
            };
            if from < end {
                let chars = char_range(q, from, end);
                let text = string_of(chars.as_slice());
                let literal = to_lowercase(text.as_str());
                let term = Term { negated: bang || inner, text, literal };
                let ghost view = term@;
                terms.push(term);
                assert(term_views(terms@) =~= before + seq![view]);
            }
            pos = next;
            assert(terms_from(query@, 0) =~= term_views(terms@) + terms_from(
                query@,
                pos as int,
            ));
        }
    }

    /// Whether every term matches one of the two fields, or none if it is
    /// negated. `regex_hits` says of each term whether its regular expression
    /// finds something in one of the fields. Both fields are in lower case.
    pub fn matches_given(&self, regex_hits: &Vec<bool>, id: &str, text: &str) -> (r: bool)
        requires
            regex_hits@.len() == self@.len(),
        ensures
            r == all_terms_match(self@, regex_hits@, id@, text@),
    {
        let id_chars = chars_of(id);
        let text_chars = chars_of(text);
        let n: usize = self.terms.len();
        let mut i: usize = 0;
        while i < n
            invariant
                i <= n == self.terms@.len(),
                regex_hits@.len() == n,
                id_chars@ == id@,
                text_chars@ == text@,
                forall|k: int|
                    0 <= k < i ==> term_hits(#[trigger] self@[k], regex_hits@[k], id@, text@)
                        != self@[k].negated,
            decreases n - i,
        {
            assert(self@[i as int] == self.terms@[i as int]@);
            let literal = chars_of(self.terms[i].literal.as_str());
            let hit: bool = regex_hits[i] || has_text(id_chars.as_slice(), literal.as_slice())
                || has_text(text_chars.as_slice(), literal.as_slice());
            if hit == self.terms[i].negated {
                return false;
            }
            i = i + 1;
        }
        true
    }

    /// Whether every term matches one of the two fields, or none if it is
    /// negated. Both fields are in lower case.
    pub fn matches(&self, stat_id_lower: &str, text_lower: &str) -> (r: bool)
        ensures
            r == query_matches(self@, stat_id_lower@, text_lower@),
            simple_terms_compile(self@),
    {
        let n: usize = self.terms.len();
        let mut hits: Vec<bool> = Vec::new();
        let mut i: usize = 0;
        while i < n
            invariant
                i <= n == self.terms@.len(),
                hits@.len() == i,
                forall|k: int|
                    0 <= k < i && simple_pattern((#[trigger] self@[k]).text) ==> term_compiles(
                        self@[k],
                    ),
                forall|k: int|
                    0 <= k < i ==> #[trigger] hits@[k] == regex_hit(
                        self@[k],
                        stat_id_lower@,
                        text_lower@,
                    ),
            decreases n - i,
        {
            assert(self@[i as int] == self.terms@[i as int]@);
            let pattern = self.terms[i].text.as_str();
            let hit: bool = match regex_search(
                pattern,
                true,
                1048576,
                stat_id_lower,
                text_lower,
            ) {
                Some((in_id, in_text)) => in_id || in_text,
                None => false,
            };
            hits.push(hit);
            i = i + 1;
        }
        proof {
            assert(hits@ =~= regex_hits_of(self@, stat_id_lower@, text_lower@));
        }
        self.matches_given(&hits, stat_id_lower, text_lower)
    }
}

/// A query of white space only has no terms, and so matches everything.
pub proof fn law_blank_query_matches_all(q: Seq<char>, id: Seq<char>, text: Seq<char>)
    requires
        blank(q),
    ensures
        terms_from(q, 0).len() == 0,
        query_matches(terms_from(q, 0), id, text),
{
    lemma_first_space(q, 0, false);
}

/// A term that is not negated matches a field that holds its text in lower case,
/// whatever its regular expression finds.
pub proof fn law_literal_text_matches(
    term: TermView,
    regex_hit: bool,
    id: Seq<char>,
    text: Seq<char>,
)
    requires
        contains_text(id, term.literal) || contains_text(text, term.literal),
    ensures
        term_hits(term, regex_hit, id, text),
{
}

/// More terms match less: what all terms of a longer query match, those of its
/// beginning match.
pub proof fn law_more_terms_match_less(
    terms: Seq<TermView>,
    regex_hits: Seq<bool>,
    n: int,
    id: Seq<char>,
    text: Seq<char>,
)
    requires
        0 <= n <= terms.len(),
        regex_hits.len() == terms.len(),
        all_terms_match(terms, regex_hits, id, text),
    ensures
        all_terms_match(terms.take(n), regex_hits.take(n), id, text),
{
    assert forall|i: int| 0 <= i < n implies term_hits(
        #[trigger] terms.take(n)[i],
        regex_hits.take(n)[i],
        id,
        text,
    ) != terms.take(n)[i].negated by {
        assert(terms.take(n)[i] == terms[i]);
    }
}

proof fn lemma_first_space_joined(a: Seq<char>, b: Seq<char>, i: int, space: bool)
    requires
        0 <= i <= a.len(),
    ensures
        first_space(a, i, space) < a.len() ==> first_space(a.push(' ') + b, i, space)
            == first_space(a, i, space),
        first_space(a, i, space) == a.len() ==> first_space(a.push(' ') + b, i, space)
            == first_space(a.push(' ') + b, a.len() as int, space),
    decreases a.len() - i,
{
    lemma_first_space(a, i, space);
    if i < a.len() {
        assert((a.push(' ') + b)[i] == a[i]);
        if unicode_whitespace(a[i]) != space {
            lemma_first_space_joined(a, b, i + 1, space);
        }
    }
}

proof fn lemma_first_space_behind(front: Seq<char>, b: Seq<char>, i: int, space: bool)
    requires
        0 <= i <= b.len(),
    ensures
        first_space(front + b, front.len() + i, space) == front.len() + first_space(b, i, space),
    decreases b.len() - i,
{
    if i < b.len() {
        assert((front + b)[front.len() + i] == b[i]);
        if unicode_whitespace(b[i]) != space {
            lemma_first_space_behind(front, b, i + 1, space);
        }
    }
}

proof fn lemma_quote_behind(front: Seq<char>, b: Seq<char>, i: int)
    requires
        0 <= i <= b.len(),
    ensures
        index_of_char(front + b, '"', front.len() + i) == front.len() + index_of_char(b, '"', i),
    decreases b.len() - i,
{
    if i < b.len() {
        assert((front + b)[front.len() + i] == b[i]);
        if b[i] != '"' {
            lemma_quote_behind(front, b, i + 1);
        }
    }
}

pub proof fn lemma_terms_behind(front: Seq<char>, b: Seq<char>, pos: int)
    requires
        0 <= pos <= b.len(),
    ensures
        terms_from(front + b, front.len() + pos) == terms_from(b, pos),
    decreases b.len() - pos,
{
    let q = front + b;
    let n = front.len() as int;
    lemma_first_space(b, pos, false);
    lemma_first_space_behind(front, b, pos, false);
    let i = first_space(b, pos, false);
    if i < b.len() {
        assert(q[n + i] == b[i]);
        let j = if b[i] == '!' { i + 1 } else { i };
        lemma_word_at(b, j);
        if j < b.len() {
            assert(q[n + j] == b[j]);
        }
        if j < b.len() && b[j] == '"' {
            lemma_quote_behind(front, b, j + 1);
        } else {
            lemma_first_space_behind(front, b, j, true);
        }
        let (start, end, next) = word_at(b, j);
        assert(word_at(q, n + j) == (n + start, n + end, n + next));
        if start < end {
            assert(q[n + start] == b[start]);
        }
        let inner = start < end && b[start] == '!';
        let from = if inner { start + 1 } else { start };
        assert(q.subrange(n + from, n + end) =~= b.subrange(from, end));
        lemma_terms_behind(front, b, next);
    }
}

proof fn lemma_terms_joined(a: Seq<char>, b: Seq<char>, pos: int)
    requires
        0 <= pos <= a.len(),
        !a.contains('"'),
    ensures
        terms_from(a.push(' ') + b, pos) == terms_from(a, pos) + terms_from(b, 0),
    decreases a.len() - pos,
{
    let front = a.push(' ');
    let q = front + b;
    let n = a.len() as int;
    assert(q[n] == ' ');
    lemma_first_space(a, pos, false);
    lemma_first_space_joined(a, b, pos, false);
    let i = first_space(a, pos, false);
    if i < n {
        assert(q[i] == a[i]);
        let j = if a[i] == '!' { i + 1 } else { i };
        lemma_word_at(a, j);
        if j < n {
            assert(q[j] == a[j]);
            assert(a.contains(a[j]));
        }
        lemma_first_space_joined(a, b, j, true);
        lemma_first_space(a, j, true);
        let (start, end, next) = word_at(a, j);
        assert(word_at(q, j) == (start, end, next));
        if start < end {
            assert(q[start] == a[start]);
        }
        let inner = start < end && a[start] == '!';
        let from = if inner { start + 1 } else { start };
        assert(q.subrange(from, end) =~= a.subrange(from, end));
        lemma_terms_joined(a, b, next);
        assert(terms_from(q, pos) =~= terms_from(a, pos) + terms_from(b, 0));
    } else {
        lemma_first_space_behind(front, b, 0, false);
        assert(first_space(q, pos, false) == first_space(q, n + 1, false));
        lemma_terms_behind(front, b, 0);
        lemma_same_start(q, pos, n + 1);
        assert(Seq::<TermView>::empty() + terms_from(b, 0) =~= terms_from(b, 0));
    }
}

/// The terms from two places on are the same if only white space is between them.
proof fn lemma_same_start(q: Seq<char>, a: int, b: int)
    requires
        0 <= a <= b <= q.len(),
        first_space(q, a, false) == first_space(q, b, false),
    ensures
        terms_from(q, a) == terms_from(q, b),
{
}

/// The terms of two queries with a space between them are those of the first, and
/// behind them those of the second, if the first has no quote.
pub proof fn law_joined_queries_have_all_terms(a: Seq<char>, b: Seq<char>)
    requires
        !a.contains('"'),
    ensures
        terms_from(a.push(' ') + b, 0) == terms_from(a, 0) + terms_from(b, 0),
{
    lemma_terms_joined(a, b, 0);
}

proof fn lemma_all_of_both(
    a: Seq<TermView>,
    b: Seq<TermView>,
    x: Seq<bool>,
    y: Seq<bool>,
    id: Seq<char>,
    text: Seq<char>,
)
    requires
        x.len() == a.len(),
        y.len() == b.len(),
    ensures
        all_terms_match(a + b, x + y, id, text) == (all_terms_match(a, x, id, text)
            && all_terms_match(b, y, id, text)),
{
    let both = a + b;
    let hits = x + y;
    if all_terms_match(both, hits, id, text) {
        assert forall|i: int| 0 <= i < a.len() implies term_hits(
            #[trigger] a[i],
            x[i],
            id,
            text,
        ) != a[i].negated by {
            assert(both[i] == a[i]);
        }
        assert forall|i: int| 0 <= i < b.len() implies term_hits(
            #[trigger] b[i],
            y[i],
            id,
            text,
        ) != b[i].negated by {
            assert(both[a.len() + i] == b[i]);
        }
    }
    if all_terms_match(a, x, id, text) && all_terms_match(b, y, id, text) {
        assert forall|i: int| 0 <= i < both.len() implies term_hits(
            #[trigger] both[i],
            hits[i],
            id,
            text,
        ) != both[i].negated by {
            if i < a.len() {
                assert(both[i] == a[i]);
            } else {
                assert(both[i] == b[i - a.len()]);
            }
        }
    }
}

/// A row matches two queries with a space between them if and only if it matches
/// both, if the first has no quote.
pub proof fn law_joined_queries_match_both(
    a: Seq<char>,
    b: Seq<char>,
    id: Seq<char>,
    text: Seq<char>,
)
    requires
        !a.contains('"'),
    ensures
        query_matches(terms_from(a.push(' ') + b, 0), id, text) == (query_matches(
            terms_from(a, 0),
            id,
            text,
        ) && query_matches(terms_from(b, 0), id, text)),
{
    let ta = terms_from(a, 0);
    let tb = terms_from(b, 0);
    law_joined_queries_have_all_terms(a, b);
    let x = regex_hits_of(ta, id, text);
    let y = regex_hits_of(tb, id, text);
    assert(regex_hits_of(ta + tb, id, text) =~= x + y);
    lemma_all_of_both(ta, tb, x, y, id, text);
}

} // verus!
