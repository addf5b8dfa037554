//! How a query is read, and what it finds.

use crate::search::{
    first_space, lemma_terms_behind, query_matches, regex_compiles, regex_found,
    regex_hits_of, term_hits, terms_from, word_at, TermView,
};
use crate::text::{
    blank, contains_text, index_of_char, unicode_lowercase, unicode_whitespace,
};
use vstd::prelude::*;

verus! {

/// A term as it is written.
pub struct Written {
    /// Whether an exclamation mark stands in front of it, and of its quotes.
    pub outside: bool,
    /// Whether it stands in quotes.
    pub quoted: bool,
    /// Whether an exclamation mark stands inside of its quotes.
    pub inside: bool,
    pub text: Seq<char>,
}

pub open spec fn mark(there: bool, c: char) -> Seq<char> {
    if there {
        seq![c]
    } else {
        Seq::empty()
    }
}

/// The term as it stands in the query.
pub open spec fn written_text(w: Written) -> Seq<char> {
    mark(w.outside, '!') + mark(w.quoted, '"') + mark(w.inside, '!') + w.text + mark(w.quoted, '"')
}

/// Whether a term can be written so. Without quotes it has no white space in it and no
/// quote in front, and its exclamation mark is that in front; in quotes it has no
/// quote. What follows an exclamation mark that counts is not another one that would.
pub open spec fn can_be_written(w: Written) -> bool {
    &&& w.text.len() > 0
    &&& !w.inside ==> w.text[0] != '!'
    &&& w.quoted ==> forall|i: int| 0 <= i < w.text.len() ==> #[trigger] w.text[i] != '"'
    &&& !w.quoted ==> {
        &&& w.inside ==> w.outside
        &&& !w.inside ==> w.text[0] != '"'
        &&& forall|i: int| 0 <= i < w.text.len() ==> !unicode_whitespace(#[trigger] w.text[i])
    }
}

proof fn lemma_space_is(q: Seq<char>, i: int, e: int, space: bool)
    requires
        0 <= i <= e <= q.len(),
        forall|k: int| i <= k < e ==> unicode_whitespace(#[trigger] q[k]) != space,
        e < q.len() ==> unicode_whitespace(q[e]) == space,
    ensures
        first_space(q, i, space) == e,
    decreases e - i,
{
    if i < e {
        assert(unicode_whitespace(q[i]) != space);
        lemma_space_is(q, i + 1, e, space);
    }
}

proof fn lemma_quote_is(q: Seq<char>, i: int, e: int)
    requires
        0 <= i <= e <= q.len(),
        forall|k: int| i <= k < e ==> #[trigger] q[k] != '"',
        e < q.len() ==> q[e] == '"',
    ensures
        index_of_char(q, '"', i) == e,
    decreases e - i,
{
    if i < e {
        assert(q[i] != '"');
        lemma_quote_is(q, i + 1, e);
    }
}

/// The term at `i`, of which the word is known.
proof fn lemma_term_read(q: Seq<char>, pos: int, i: int, start: int, end: int, next: int)
    requires
        0 <= pos <= i < q.len(),
        first_space(q, pos, false) == i,
        word_at(q, if q[i] == '!' { i + 1 } else { i }) == (start, end, next),
        0 <= start < end <= q.len(),
        !(q[start] == '!' && start + 1 == end),
    ensures
        terms_from(q, pos) == seq![
            TermView {
                negated: q[i] == '!' || q[start] == '!',
                text: q.subrange(if q[start] == '!' { start + 1 } else { start }, end),
                literal: unicode_lowercase(
                    q.subrange(if q[start] == '!' { start + 1 } else { start }, end),
                ),
            },
        ] + terms_from(q, next),
{
}

/// The first term of a query is read as it is written; the query goes on behind it.
pub proof fn law_written_term_is_read(gap: Seq<char>, w: Written, rest: Seq<char>)
    requires
        blank(gap),
        can_be_written(w),
        !w.quoted && rest.len() > 0 ==> unicode_whitespace(rest[0]),
    ensures
        terms_from(gap + written_text(w) + rest, 0) == seq![
            TermView {
                negated: w.outside || w.inside,
                text: w.text,
                literal: unicode_lowercase(w.text),
            },
        ] + terms_from(rest, 0),
{
    let q = gap + written_text(w) + rest;
    let i = gap.len() as int;
    let j = i + mark(w.outside, '!').len();
    let start = j + mark(w.quoted, '"').len();
    let from = start + mark(w.inside, '!').len();
    let end = from + w.text.len();
    let next = end + mark(w.quoted, '"').len();
    assert forall|k: int| 0 <= k < i implies unicode_whitespace(#[trigger] q[k]) by {
        assert(q[k] == gap[k]);
    }
    assert forall|k: int| 0 <= k < w.text.len() implies #[trigger] q[from + k] == w.text[k] by {}
    assert(q[from + 0] == w.text[0]);
    assert(!unicode_whitespace('!') && !unicode_whitespace('"'));
    if w.outside {
        assert(q[i] == '!');
    }
    if w.quoted {
        assert(q[j] == '"');
        assert(q[end] == '"');
    }
    if w.inside {
        assert(q[start] == '!');
    }
    assert(!unicode_whitespace(q[i])) by {
        if !w.outside && !w.quoted {
            assert(!unicode_whitespace(w.text[0]));
        }
    }
    lemma_space_is(q, 0, i, false);
    assert((q[i] == '!') == w.outside);
    if w.quoted {
        assert forall|k: int| start <= k < end implies #[trigger] q[k] != '"' by {
            if k >= from {
                assert(q[from + (k - from)] == w.text[k - from]);
            }
        }
        lemma_quote_is(q, j + 1, end as int);
    } else {
        assert forall|k: int| j <= k < end implies !unicode_whitespace(#[trigger] q[k]) by {
            if k >= from {
                assert(q[from + (k - from)] == w.text[k - from]);
            }
        }
        if end < q.len() {
            assert(q[end as int] == rest[0]);
        }
        lemma_space_is(q, j as int, end as int, true);
    }
    assert(word_at(q, j as int) == (start as int, end as int, next as int));
    assert((q[start as int] == '!') == w.inside);
    lemma_term_read(q, 0, i, start as int, end as int, next as int);
    assert(q.subrange(from as int, end as int) =~= w.text);
    let front = gap + written_text(w);
    assert(front.len() == next);
    lemma_terms_behind(front, rest, 0);
}

/// A quote that is not closed reaches to the end of the query.
pub proof fn law_open_quote_reaches_to_the_end(gap: Seq<char>, text: Seq<char>)
    requires
        blank(gap),
        text.len() > 0,
        text[0] != '!',
        forall|i: int| 0 <= i < text.len() ==> #[trigger] text[i] != '"',
    ensures
        terms_from(gap + seq!['"'] + text, 0) == seq![
            TermView { negated: false, text, literal: unicode_lowercase(text) },
        ],
{
    let q = gap + seq!['"'] + text;
    let i = gap.len() as int;
    assert forall|k: int| 0 <= k < i implies unicode_whitespace(#[trigger] q[k]) by {
        assert(q[k] == gap[k]);
    }
    assert(q[i] == '"');
    assert(!unicode_whitespace('"'));
    lemma_space_is(q, 0, i, false);
    assert forall|k: int| i + 1 <= k < q.len() implies #[trigger] q[k] != '"' by {
        assert(q[k] == text[k - i - 1]);
    }
    lemma_quote_is(q, i + 1, q.len() as int);
    assert(q[i + 1] == text[0]);
    lemma_term_read(q, 0, i, i + 1, q.len() as int, q.len() as int);
    assert(q.subrange(i + 1, q.len() as int) =~= text);
    assert(terms_from(q, q.len() as int) =~= Seq::<TermView>::empty());
}

/// Whether a term finds something: its regular expression in one of the fields, where
/// it compiles, or its text in lower case in one of them.
pub open spec fn is_found(term: TermView, id: Seq<char>, text: Seq<char>) -> bool {
    ||| contains_text(id, term.literal)
    ||| contains_text(text, term.literal)
    ||| {
        &&& regex_compiles(term.text, true, 1048576, usize::BITS as nat)
        &&& regex_found(term.text, true, id) || regex_found(term.text, true, text)
    }
}

/// A query is met if each of its terms finds something, unless it is negated, and no
/// negated one does.
pub proof fn law_query_is_met_by_all_terms(terms: Seq<TermView>, id: Seq<char>, text: Seq<char>)
    ensures
        query_matches(terms, id, text) <==> forall|i: int|
            0 <= i < terms.len() ==> if (#[trigger] terms[i]).negated {
                !is_found(terms[i], id, text)
            } else {
                is_found(terms[i], id, text)
            },
{
    let hits = regex_hits_of(terms, id, text);
    assert forall|i: int| 0 <= i < terms.len() implies is_found(#[trigger] terms[i], id, text)
        == term_hits(terms[i], hits[i], id, text) by {}
    if query_matches(terms, id, text) {
        assert forall|i: int| 0 <= i < terms.len() implies if (#[trigger] terms[i]).negated {
            !is_found(terms[i], id, text)
        } else {
            is_found(terms[i], id, text)
        } by {
            assert(term_hits(terms[i], hits[i], id, text) != terms[i].negated);
        }
    }
}

} // verus!
