//! What becomes of an object file, told by what it is made of.
//!
//! A file is a row of parts: blocks with parts of their own, words, strings,
//! comments, lists and single characters. The laws say which parts are left.

use crate::blocks::{
    array_end, client_stripped, emptied, kept_blocks, lemma_next_block, matching_brace, name_end,
    next_block, opens_quoted, opens_syntax, quoted_end, space_end, string_end, syntax_end,
    top_level_block, Block,
};
use crate::edit_laws::is_white;
use crate::text::{blank, find_from, index_of_char, lemma_find_from, occurs_at};
use vstd::prelude::*;

verus! {

/// A part of an object file.
pub enum Part {
    /// A character that begins nothing.
    Plain(char),
    /// A string in quotes; a backslash stands in front of some of its characters.
    Quoted(Seq<(bool, char)>),
    /// A comment between `/*` and `*/`.
    Note(Seq<char>),
    /// A comment from `//` to the end of the line.
    Line(Seq<char>),
    /// A list in square brackets, in which names and braces are characters like others.
    List(Seq<Part>),
    /// A name that begins no block.
    Word(Seq<char>),
    /// A name and, behind white space, parts in braces.
    Block { name: Seq<char>, gap: Seq<char>, body: Seq<Part> },
}

pub open spec fn begins_name(c: char) -> bool {
    'a' <= c <= 'z' || 'A' <= c <= 'Z' || c == '_'
}

pub open spec fn goes_on_in_name(c: char) -> bool {
    begins_name(c) || '0' <= c <= '9'
}

pub open spec fn is_name(s: Seq<char>) -> bool {
    &&& s.len() > 0
    &&& begins_name(s[0])
    &&& forall|i: int| 0 <= i < s.len() ==> goes_on_in_name(#[trigger] s[i])
}

pub open spec fn is_gap(s: Seq<char>) -> bool {
    forall|i: int| 0 <= i < s.len() ==> is_white(#[trigger] s[i])
}

/// The characters of a string as they stand in the file.
pub open spec fn string_text(s: Seq<(bool, char)>) -> Seq<char>
    decreases s.len(),
{
    if s.len() == 0 {
        Seq::empty()
    } else if s[0].0 {
        seq!['\\', s[0].1] + string_text(s.drop_first())
    } else {
        seq![s[0].1] + string_text(s.drop_first())
    }
}

/// A part as it stands in the file.
pub open spec fn part_text(p: Part) -> Seq<char>
    decreases p,
{
    match p {
        Part::Plain(c) => seq![c],
        Part::Quoted(s) => seq!['"'] + string_text(s) + seq!['"'],
        Part::Note(s) => seq!['/', '*'] + s + seq!['*', '/'],
        Part::Line(s) => seq!['/', '/'] + s + seq!['\n'],
        Part::List(items) => seq!['['] + parts_text(items) + seq![']'],
        Part::Word(s) => s,
        Part::Block { name, gap, body } => name + gap + seq!['{'] + parts_text(body) + seq!['}'],
    }
}

/// Parts as they stand in the file, one behind the other.
pub open spec fn parts_text(parts: Seq<Part>) -> Seq<char>
    decreases parts,
{
    if parts.len() == 0 {
        Seq::empty()
    } else {
        part_text(parts[0]) + parts_text(parts.drop_first())
    }
}

/// Whether each quote and each backslash of a string has a backslash in front.
pub open spec fn is_string(s: Seq<(bool, char)>) -> bool {
    forall|i: int| 0 <= i < s.len() ==> (#[trigger] s[i]).0 || (s[i].1 != '"' && s[i].1 != '\\')
}

/// Whether a comment does not end within the text.
pub open spec fn is_note(s: Seq<char>) -> bool {
    forall|i: int| 0 <= i < s.len() - 1 ==> !(#[trigger] s[i] == '*' && s[i + 1] == '/')
}

/// Whether a text ends no line.
pub open spec fn is_one_line(s: Seq<char>) -> bool {
    forall|i: int| 0 <= i < s.len() ==> #[trigger] s[i] != '\n'
}

/// Whether a part may stand in a list: a character that neither begins nor ends
/// anything there, a string, a comment, or another list.
pub open spec fn is_item(p: Part) -> bool
    decreases p,
{
    match p {
        Part::Plain(c) => c != '[' && c != ']' && c != '"' && c != '/',
        Part::Quoted(s) => is_string(s),
        Part::Note(s) => is_note(s),
        Part::Line(s) => is_one_line(s),
        Part::List(items) => is_list(items),
        _ => false,
    }
}

pub open spec fn is_list(items: Seq<Part>) -> bool
    decreases items,
{
    items.len() > 0 ==> is_item(items[0]) && is_list(items.drop_first())
}

/// Whether a part is what its kind says.
pub open spec fn is_part(p: Part) -> bool
    decreases p,
{
    match p {
        Part::Plain(c) => !begins_name(c) && c != '"' && c != '/' && c != '[' && c != '{' && c
            != '}',
        Part::Quoted(s) => is_string(s),
        Part::Note(s) => is_note(s),
        Part::Line(s) => is_one_line(s),
        Part::List(items) => is_list(items),
        Part::Word(s) => is_name(s),
        Part::Block { name, gap, body } => is_name(name) && is_gap(gap) && is_script(body),
    }
}

/// Whether a name could go on with a part.
pub open spec fn goes_on_with(p: Part) -> bool {
    match p {
        Part::Plain(c) => goes_on_in_name(c),
        Part::Word(_) => true,
        Part::Block { name, gap, body } => true,
        _ => false,
    }
}

/// Whether parts may stand one behind the other: no name goes on in the next part.
pub open spec fn is_script(parts: Seq<Part>) -> bool
    decreases parts,
{
    parts.len() > 0 ==> {
        &&& is_part(parts[0])
        &&& parts[0] is Word && parts.len() > 1 ==> !goes_on_with(parts[1])
        &&& is_script(parts.drop_first())
    }
}

/// What stands at `i` stands there character by character.
proof fn lemma_char_at(t: Seq<char>, i: int, w: Seq<char>, j: int)
    requires
        occurs_at(t, i, w),
        0 <= j < w.len(),
    ensures
        t[i + j] == w[j],
{
    assert(t.subrange(i, i + w.len())[j] == t[i + j]);
}

proof fn lemma_two_at(t: Seq<char>, i: int, a: Seq<char>, b: Seq<char>)
    requires
        occurs_at(t, i, a + b),
    ensures
        occurs_at(t, i, a),
        occurs_at(t, i + a.len(), b),
{
    let w = a + b;
    assert forall|j: int| 0 <= j < w.len() implies #[trigger] t[i + j] == w[j] by {
        lemma_char_at(t, i, w, j);
    }
    assert(t.subrange(i, i + a.len()) =~= a) by {
        assert forall|j: int| 0 <= j < a.len() implies t.subrange(i, i + a.len())[j] == a[j] by {
            assert(t[i + j] == w[j]);
        }
    }
    let k = (i + a.len()) as int;
    assert(t.subrange(k, k + b.len()) =~= b) by {
        assert forall|j: int| 0 <= j < b.len() implies t.subrange(k, k + b.len())[j] == b[j] by {
            assert(t[i + (a.len() + j)] == w[a.len() + j]);
        }
    }
}

/// Characters that hide nothing and are no braces.
spec fn are_harmless(t: Seq<char>, i: int, e: int) -> bool {
    &&& 0 <= i <= e <= t.len()
    &&& forall|k: int|
        i <= k < e ==> #[trigger] t[k] != '"' && t[k] != '/' && t[k] != '[' && t[k] != '{' && t[k]
            != '}'
}

proof fn lemma_harmless(t: Seq<char>, i: int, e: int, d: int)
    requires
        are_harmless(t, i, e),
    ensures
        matching_brace(t, i, d) == matching_brace(t, e, d),
    decreases e - i,
{
    if i < e {
        assert(t[i] != '"');
        lemma_harmless(t, i + 1, e, d);
    }
}

proof fn lemma_name_harmless(t: Seq<char>, i: int, s: Seq<char>)
    requires
        occurs_at(t, i, s),
        is_name(s) || is_gap(s),
    ensures
        are_harmless(t, i, (i + s.len()) as int),
{
    assert forall|k: int| i <= k < i + s.len() implies #[trigger] t[k] != '"' && t[k] != '/' && t[k]
        != '[' && t[k] != '{' && t[k] != '}' by {
        lemma_char_at(t, i, s, k - i);
        if is_name(s) {
            assert(goes_on_in_name(s[k - i]));
        } else {
            assert(is_white(s[k - i]));
        }
    }
}

proof fn lemma_string_ends(t: Seq<char>, j: int, s: Seq<(bool, char)>)
    requires
        occurs_at(t, j, string_text(s) + seq!['"']),
        is_string(s),
    ensures
        string_end(t, j) == j + string_text(s).len() + 1,
    decreases s.len(),
{
    let w = string_text(s) + seq!['"'];
    lemma_char_at(t, j, w, 0);
    if s.len() > 0 {
        let rest = s.drop_first();
        let more = string_text(rest) + seq!['"'];
        assert(s[0].0 || (s[0].1 != '"' && s[0].1 != '\\'));
        assert forall|i: int| 0 <= i < rest.len() implies (#[trigger] rest[i]).0 || (rest[i].1
            != '"' && rest[i].1 != '\\') by {
            assert(rest[i] == s[i + 1]);
        }
        if s[0].0 {
            assert(w =~= seq!['\\', s[0].1] + more);
            lemma_two_at(t, j, seq!['\\', s[0].1], more);
            lemma_string_ends(t, j + 2, rest);
        } else {
            assert(w =~= seq![s[0].1] + more);
            lemma_two_at(t, j, seq![s[0].1], more);
            lemma_string_ends(t, j + 1, rest);
        }
    }
}

proof fn lemma_note_ends(t: Seq<char>, i: int, s: Seq<char>)
    requires
        occurs_at(t, i, seq!['/', '*'] + s + seq!['*', '/']),
        is_note(s),
    ensures
        find_from(t, seq!['*', '/'], i + 2) == Some(i + 2 + s.len()),
{
    let w = seq!['/', '*'] + s + seq!['*', '/'];
    let p = seq!['*', '/'];
    let k = (i + 2 + s.len()) as int;
    lemma_two_at(t, i, seq!['/', '*'] + s, p);
    assert((seq!['/', '*'] + s).len() == 2 + s.len());
    assert(occurs_at(t, k, p));
    lemma_find_from(t, p, i + 2);
    let f = find_from(t, p, i + 2)->0;
    if f < k {
        lemma_char_at(t, f, p, 0);
        lemma_char_at(t, f, p, 1);
        lemma_char_at(t, i, w, f - i);
        lemma_char_at(t, i, w, f - i + 1);
        let n = f - i - 2;
        assert(w[f - i] == s[n]);
        if n + 1 < s.len() {
            assert(w[f - i + 1] == s[n + 1]);
        } else {
            assert(w[f - i + 1] == '*');
        }
        assert(false);
    }
}

proof fn lemma_index_is(t: Seq<char>, c: char, i: int, e: int)
    requires
        0 <= i <= e < t.len(),
        t[e] == c,
        forall|k: int| i <= k < e ==> #[trigger] t[k] != c,
    ensures
        index_of_char(t, c, i) == e,
    decreases e - i,
{
    if i < e {
        assert(t[i] != c);
        lemma_index_is(t, c, i + 1, e);
    }
}

/// Strings and comments are passed over as a whole.
proof fn lemma_quoted_part(t: Seq<char>, i: int, p: Part)
    requires
        occurs_at(t, i, part_text(p)),
        match p {
            Part::Quoted(s) => is_string(s),
            Part::Note(s) => is_note(s),
            Part::Line(s) => is_one_line(s),
            _ => false,
        },
    ensures
        part_text(p).len() > 0,
        opens_quoted(t, i),
        quoted_end(t, i) == i + part_text(p).len(),
{
    let w = part_text(p);
    match p {
        Part::Quoted(s) => {
            assert(w =~= seq!['"'] + (string_text(s) + seq!['"']));
            lemma_two_at(t, i, seq!['"'], string_text(s) + seq!['"']);
            lemma_char_at(t, i, w, 0);
            lemma_string_ends(t, i + 1, s);
        },
        Part::Note(s) => {
            lemma_char_at(t, i, w, 0);
            lemma_char_at(t, i, w, 1);
            lemma_note_ends(t, i, s);
        },
        Part::Line(s) => {
            lemma_char_at(t, i, w, 0);
            lemma_char_at(t, i, w, 1);
            let e = (i + 2 + s.len()) as int;
            lemma_char_at(t, i, w, e - i);
            assert forall|k: int| i + 2 <= k < e implies #[trigger] t[k] != '\n' by {
                lemma_char_at(t, i, w, k - i);
                assert(w[k - i] == s[k - i - 2]);
            }
            lemma_index_is(t, '\n', i + 2, e);
        },
        _ => {},
    }
}

/// Where the items of a list stand.
proof fn lemma_list_at(t: Seq<char>, i: int, items: Seq<Part>)
    requires
        occurs_at(t, i, part_text(Part::List(items))),
    ensures
        ({
            let e = i + 1 + parts_text(items).len();
            &&& e < t.len()
            &&& 0 <= i
            &&& t[i] == '['
            &&& occurs_at(t, i + 1, parts_text(items))
            &&& t[e] == ']'
            &&& i + part_text(Part::List(items)).len() == e + 1
        }),
{
    let inner = parts_text(items);
    let w = part_text(Part::List(items));
    assert(w =~= seq!['['] + (inner + seq![']']));
    lemma_two_at(t, i, seq!['['], inner + seq![']']);
    lemma_char_at(t, i, seq!['['], 0);
    lemma_two_at(t, i + 1, inner, seq![']']);
    lemma_char_at(t, (i + 1 + inner.len()) as int, seq![']'], 0);
}

/// An item closes the lists that it opens.
proof fn lemma_item_passes(t: Seq<char>, i: int, p: Part, d: int)
    requires
        occurs_at(t, i, part_text(p)),
        is_item(p),
        d >= 1,
    ensures
        array_end(t, i, d) == array_end(t, (i + part_text(p).len()) as int, d),
    decreases p,
{
    match p {
        Part::Plain(c) => {
            lemma_char_at(t, i, part_text(p), 0);
        },
        Part::List(items) => {
            lemma_list_at(t, i, items);
            lemma_items_pass(t, i + 1, items, d + 1);
        },
        _ => {
            lemma_quoted_part(t, i, p);
        },
    }
}

proof fn lemma_items_pass(t: Seq<char>, i: int, items: Seq<Part>, d: int)
    requires
        occurs_at(t, i, parts_text(items)),
        is_list(items),
        d >= 1,
    ensures
        array_end(t, i, d) == array_end(t, (i + parts_text(items).len()) as int, d),
    decreases items,
{
    if items.len() > 0 {
        lemma_two_at(t, i, part_text(items[0]), parts_text(items.drop_first()));
        lemma_item_passes(t, i, items[0], d);
        lemma_items_pass(t, (i + part_text(items[0]).len()) as int, items.drop_first(), d);
    }
}

/// Strings, comments and lists are passed over as a whole.
proof fn lemma_hidden_part(t: Seq<char>, i: int, p: Part)
    requires
        occurs_at(t, i, part_text(p)),
        is_part(p),
        p is Quoted || p is Note || p is Line || p is List,
    ensures
        part_text(p).len() > 0,
        opens_syntax(t, i),
        syntax_end(t, i) == i + part_text(p).len(),
{
    match p {
        Part::List(items) => {
            lemma_list_at(t, i, items);
            lemma_items_pass(t, i + 1, items, 1);
            let e = (i + 1 + parts_text(items).len()) as int;
            assert(array_end(t, e + 1, 0) == e + 1);
        },
        _ => {
            lemma_quoted_part(t, i, p);
        },
    }
}

/// Where the parts of a block stand.
proof fn lemma_block_at(t: Seq<char>, i: int, name: Seq<char>, gap: Seq<char>, body: Seq<Part>)
    requires
        occurs_at(t, i, part_text(Part::Block { name, gap, body })),
    ensures
        occurs_at(t, i, name),
        occurs_at(t, i + name.len(), gap),
        ({
            let open = i + name.len() + gap.len();
            let close = open + 1 + parts_text(body).len();
            &&& close < t.len()
            &&& t[open] == '{'
            &&& occurs_at(t, open + 1, parts_text(body))
            &&& t[close] == '}'
            &&& i + part_text(Part::Block { name, gap, body }).len() == close + 1
        }),
{
    let inner = parts_text(body);
    let open = (i + name.len() + gap.len()) as int;
    let w = part_text(Part::Block { name, gap, body });
    assert(w =~= name + (gap + (seq!['{'] + (inner + seq!['}']))));
    lemma_two_at(t, i, name, gap + (seq!['{'] + (inner + seq!['}'])));
    lemma_two_at(t, (i + name.len()) as int, gap, seq!['{'] + (inner + seq!['}']));
    lemma_two_at(t, open, seq!['{'], inner + seq!['}']);
    lemma_char_at(t, open, seq!['{'], 0);
    lemma_two_at(t, open + 1, inner, seq!['}']);
    lemma_char_at(t, (open + 1 + inner.len()) as int, seq!['}'], 0);
}

/// A part closes what it opens.
proof fn lemma_part_closes(t: Seq<char>, i: int, p: Part, d: int)
    requires
        occurs_at(t, i, part_text(p)),
        is_part(p),
        d >= 1,
    ensures
        matching_brace(t, i, d) == matching_brace(t, i + part_text(p).len(), d),
    decreases p,
{
    match p {
        Part::Plain(c) => {
            lemma_char_at(t, i, part_text(p), 0);
        },
        Part::Word(s) => {
            lemma_name_harmless(t, i, s);
            lemma_harmless(t, i, (i + s.len()) as int, d);
        },
        Part::Block { name, gap, body } => {
            lemma_block_at(t, i, name, gap, body);
            let g = (i + name.len()) as int;
            let open = (g + gap.len()) as int;
            lemma_name_harmless(t, i, name);
            lemma_harmless(t, i, g, d);
            lemma_name_harmless(t, g, gap);
            lemma_harmless(t, g, open, d);
            lemma_parts_close(t, open + 1, body, d + 1);
        },
        _ => {
            lemma_hidden_part(t, i, p);
        },
    }
}

proof fn lemma_parts_close(t: Seq<char>, i: int, parts: Seq<Part>, d: int)
    requires
        occurs_at(t, i, parts_text(parts)),
        is_script(parts),
        d >= 1,
    ensures
        matching_brace(t, i, d) == matching_brace(t, i + parts_text(parts).len(), d),
    decreases parts,
{
    if parts.len() > 0 {
        lemma_two_at(t, i, part_text(parts[0]), parts_text(parts.drop_first()));
        lemma_part_closes(t, i, parts[0], d);
        lemma_parts_close(
            t,
            (i + part_text(parts[0]).len()) as int,
            parts.drop_first(),
            d,
        );
    }
}

proof fn lemma_white_pass(t: Seq<char>, i: int)
    requires
        0 <= i <= t.len(),
    ensures
        next_block(t, i) == next_block(t, space_end(t, i)),
    decreases t.len() - i,
{
    if i < t.len() && is_white(t[i]) {
        lemma_white_pass(t, i + 1);
    }
}

proof fn lemma_name_to(t: Seq<char>, i: int, e: int)
    requires
        0 <= i <= e <= t.len(),
        forall|k: int| i <= k < e ==> goes_on_in_name(#[trigger] t[k]),
        e == t.len() || !goes_on_in_name(t[e]),
    ensures
        name_end(t, i) == e,
    decreases e - i,
{
    if i < e {
        assert(goes_on_in_name(t[i]));
        lemma_name_to(t, i + 1, e);
    }
}

proof fn lemma_gap_to(t: Seq<char>, i: int, e: int)
    requires
        0 <= i <= e <= t.len(),
        forall|k: int| i <= k < e ==> is_white(#[trigger] t[k]),
        e == t.len() || !is_white(t[e]),
    ensures
        space_end(t, i) == e,
    decreases e - i,
{
    if i < e {
        assert(is_white(t[i]));
        lemma_gap_to(t, i + 1, e);
    }
}

/// Whether neither a name nor a block goes on at `e`.
spec fn is_apart(t: Seq<char>, e: int) -> bool {
    &&& 0 <= e <= t.len()
    &&& e == t.len() || !goes_on_in_name(t[e])
    &&& space_end(t, e) >= t.len() || t[space_end(t, e)] != '{'
}

/// A part that is no block is passed over.
proof fn lemma_part_passes(t: Seq<char>, i: int, p: Part)
    requires
        occurs_at(t, i, part_text(p)),
        is_part(p),
        !(p is Block),
        p is Word ==> is_apart(t, (i + part_text(p).len()) as int),
    ensures
        next_block(t, i) == next_block(t, (i + part_text(p).len()) as int),
{
    match p {
        Part::Plain(c) => {
            lemma_char_at(t, i, part_text(p), 0);
        },
        Part::Word(s) => {
            let e = (i + s.len()) as int;
            assert forall|k: int| i <= k < e implies goes_on_in_name(#[trigger] t[k]) by {
                lemma_char_at(t, i, s, k - i);
            }
            lemma_char_at(t, i, s, 0);
            lemma_name_to(t, i + 1, e);
            lemma_white_pass(t, e);
        },
        Part::Block { name, gap, body } => {},
        _ => {
            lemma_hidden_part(t, i, p);
        },
    }
}

/// What a part begins with.
proof fn lemma_begins(t: Seq<char>, i: int, p: Part)
    requires
        occurs_at(t, i, part_text(p)),
        is_part(p),
    ensures
        part_text(p).len() > 0,
        i < t.len(),
        t[i] != '{',
        is_white(t[i]) ==> p is Plain,
        !goes_on_with(p) ==> !goes_on_in_name(t[i]),
{
    let w = part_text(p);
    match p {
        Part::Block { name, gap, body } => {
            lemma_block_at(t, i, name, gap, body);
            lemma_char_at(t, i, name, 0);
        },
        _ => {
            assert(w.len() > 0);
            lemma_char_at(t, i, w, 0);
        },
    }
}

/// No brace opens behind white space where parts begin.
proof fn lemma_no_brace_ahead(t: Seq<char>, i: int, parts: Seq<Part>)
    requires
        occurs_at(t, i, parts_text(parts)),
        is_script(parts),
        ({
            let e = i + parts_text(parts).len();
            e == t.len() || t[e] == '}'
        }),
    ensures
        space_end(t, i) >= t.len() || t[space_end(t, i)] != '{',
        parts.len() == 0 || !goes_on_with(parts[0]) ==> is_apart(t, i),
    decreases parts,
{
    if parts.len() > 0 {
        let p = parts[0];
        lemma_two_at(t, i, part_text(p), parts_text(parts.drop_first()));
        lemma_begins(t, i, p);
        if is_white(t[i]) {
            lemma_no_brace_ahead(t, i + 1, parts.drop_first());
        }
    }
}

/// What stands in a row of parts, and what follows on the first of them.
proof fn lemma_front(t: Seq<char>, i: int, parts: Seq<Part>)
    requires
        parts.len() > 0,
        occurs_at(t, i, parts_text(parts)),
        is_script(parts),
        ({
            let e = i + parts_text(parts).len();
            e == t.len() || t[e] == '}'
        }),
    ensures
        ({
            let p = parts[0];
            let m = (i + part_text(p).len()) as int;
            &&& is_part(p)
            &&& is_script(parts.drop_first())
            &&& occurs_at(t, i, part_text(p))
            &&& occurs_at(t, m, parts_text(parts.drop_first()))
            &&& i + parts_text(parts).len() == m + parts_text(parts.drop_first()).len()
            &&& p is Word ==> is_apart(t, m)
        }),
{
    let p = parts[0];
    let rest = parts.drop_first();
    let m = (i + part_text(p).len()) as int;
    lemma_two_at(t, i, part_text(p), parts_text(rest));
    lemma_no_brace_ahead(t, m, rest);
    if parts.len() > 1 {
        assert(rest[0] == parts[1]);
    }
}

/// A block is found where it stands, and closed where it ends.
proof fn lemma_block_found(t: Seq<char>, i: int, name: Seq<char>, gap: Seq<char>, body: Seq<Part>)
    requires
        occurs_at(t, i, part_text(Part::Block { name, gap, body })),
        is_part(Part::Block { name, gap, body }),
    ensures
        ({
            let open = (i + name.len() + gap.len()) as int;
            let b = Block { start: i, name_end: (i + name.len()) as int, open };
            &&& next_block(t, i) == Some(b)
            &&& b.name(t) == name
            &&& matching_brace(t, open + 1, 1) == Some((open + 1 + parts_text(body).len()) as int)
        }),
{
    lemma_block_at(t, i, name, gap, body);
    let g = (i + name.len()) as int;
    let open = (g + gap.len()) as int;
    assert forall|k: int| i <= k < g implies goes_on_in_name(#[trigger] t[k]) by {
        lemma_char_at(t, i, name, k - i);
    }
    assert forall|k: int| g <= k < open implies is_white(#[trigger] t[k]) by {
        lemma_char_at(t, g, gap, k - g);
    }
    lemma_char_at(t, i, name, 0);
    if gap.len() > 0 {
        assert(is_white(t[g]));
    }
    lemma_name_to(t, i + 1, g);
    lemma_gap_to(t, g, open);
    assert(t.subrange(i, g) =~= name);
    lemma_parts_close(t, open + 1, body, 1);
}

/// The parts without the blocks that are not to be kept.
pub open spec fn kept_parts(parts: Seq<Part>, keep: Seq<Seq<char>>) -> Seq<Part>
    decreases parts.len(),
{
    if parts.len() == 0 {
        parts
    } else if parts[0] is Block && !keep.contains(parts[0]->name) {
        kept_parts(parts.drop_first(), keep)
    } else {
        seq![parts[0]] + kept_parts(parts.drop_first(), keep)
    }
}

proof fn lemma_parts_text_front(p: Part, rest: Seq<Part>)
    ensures
        parts_text(seq![p] + rest) == part_text(p) + parts_text(rest),
{
    let all = seq![p] + rest;
    assert(all.drop_first() =~= rest);
    assert(all[0] == p);
}

/// In a row of parts, the blocks are kept that are to be kept.
proof fn lemma_kept(
    t: Seq<char>,
    keep: Seq<Seq<char>>,
    pos: int,
    i: int,
    parts: Seq<Part>,
)
    requires
        0 <= pos <= i,
        next_block(t, pos) == next_block(t, i),
        occurs_at(t, i, parts_text(parts)),
        i + parts_text(parts).len() == t.len(),
        is_script(parts),
    ensures
        kept_blocks(t, keep, pos) == t.subrange(pos, i) + parts_text(kept_parts(parts, keep)),
    decreases parts.len(),
{
    if parts.len() == 0 {
        assert(t.subrange(pos, i) + parts_text(parts) =~= t.subrange(pos, t.len() as int));
    } else {
        let p = parts[0];
        let rest = parts.drop_first();
        let m = (i + part_text(p).len()) as int;
        lemma_front(t, i, parts);
        lemma_parts_text_front(p, kept_parts(rest, keep));
        assert(t.subrange(i, m) == part_text(p));
        if let Part::Block { name, gap, body } = p {
            lemma_block_at(t, i, name, gap, body);
            lemma_block_found(t, i, name, gap, body);
            lemma_kept(t, keep, m, m, rest);
            assert(t.subrange(m, m) =~= Seq::<char>::empty());
            assert(kept_blocks(t, keep, pos) =~= t.subrange(pos, i) + parts_text(
                kept_parts(parts, keep),
            ));
        } else {
            lemma_part_passes(t, i, p);
            lemma_kept(t, keep, pos, m, rest);
            assert(t.subrange(pos, m) =~= t.subrange(pos, i) + part_text(p));
            assert(kept_blocks(t, keep, pos) =~= t.subrange(pos, i) + parts_text(
                kept_parts(parts, keep),
            ));
        }
    }
}

/// Whether a part is a block of that name.
pub open spec fn is_named(p: Part, name: Seq<char>) -> bool {
    p is Block && p->name == name
}

/// Where the first of the blocks with a name stands in a row of parts.
proof fn lemma_named_found(
    t: Seq<char>,
    name: Seq<char>,
    pos: int,
    i: int,
    parts: Seq<Part>,
    c: int,
) -> (at: int)
    requires
        0 <= pos <= i,
        next_block(t, pos) == next_block(t, i),
        occurs_at(t, i, parts_text(parts)),
        i + parts_text(parts).len() == t.len(),
        is_script(parts),
        0 <= c < parts.len(),
        is_named(parts[c], name),
        forall|j: int| 0 <= j < c ==> !is_named(#[trigger] parts[j], name),
    ensures
        i <= at,
        is_part(parts[c]),
        occurs_at(t, at, part_text(parts[c])),
        top_level_block(t, name, pos) == Some((at + name.len() + parts[c]->gap.len()) as int),
        forall|x: Part| #[trigger]
            parts_text(parts.update(c, x)) == t.subrange(i, at) + part_text(x) + t.subrange(
                at + part_text(parts[c]).len(),
                t.len() as int,
            ),
    decreases parts.len(),
{
    let p = parts[0];
    let rest = parts.drop_first();
    let m = (i + part_text(p).len()) as int;
    lemma_front(t, i, parts);
    assert(t.subrange(i, m) == part_text(p));
    if c == 0 {
        lemma_block_at(t, i, p->name, p->gap, p->body);
        lemma_block_found(t, i, p->name, p->gap, p->body);
        assert forall|x: Part| #[trigger] parts_text(parts.update(c, x)) == t.subrange(i, i)
            + part_text(x) + t.subrange(m, t.len() as int) by {
            assert(parts.update(c, x) =~= seq![x] + rest);
            lemma_parts_text_front(x, rest);
            assert(t.subrange(m, t.len() as int) =~= parts_text(rest));
            assert(t.subrange(i, i) + part_text(x) =~= part_text(x));
        }
        i
    } else {
        assert(rest[c - 1] == parts[c]);
        assert forall|j: int| 0 <= j < c - 1 implies !is_named(#[trigger] rest[j], name) by {
            assert(rest[j] == parts[j + 1]);
        }
        assert(!is_named(parts[0], name));
        let from = if p is Block {
            m
        } else {
            pos
        };
        if p is Block {
            lemma_block_at(t, i, p->name, p->gap, p->body);
            lemma_block_found(t, i, p->name, p->gap, p->body);
        } else {
            lemma_part_passes(t, i, p);
        }
        let at = lemma_named_found(t, name, from, m, rest, c - 1);
        assert forall|x: Part| #[trigger] parts_text(parts.update(c, x)) == t.subrange(i, at)
            + part_text(x) + t.subrange(
            at + part_text(parts[c]).len(),
            t.len() as int,
        ) by {
            assert(parts.update(c, x) =~= seq![p] + rest.update(c - 1, x));
            lemma_parts_text_front(p, rest.update(c - 1, x));
            assert(part_text(p) + t.subrange(m, at) =~= t.subrange(i, at));
            assert(parts_text(parts.update(c, x)) =~= t.subrange(i, at) + part_text(x)
                + t.subrange(at + part_text(parts[c]).len(), t.len() as int));
        }
        at
    }
}

/// Where no block has the name, none is found.
proof fn lemma_named_missing(t: Seq<char>, name: Seq<char>, pos: int, i: int, parts: Seq<Part>)
    requires
        0 <= pos <= i,
        next_block(t, pos) == next_block(t, i),
        occurs_at(t, i, parts_text(parts)),
        i + parts_text(parts).len() == t.len(),
        is_script(parts),
        forall|j: int| 0 <= j < parts.len() ==> !is_named(#[trigger] parts[j], name),
    ensures
        top_level_block(t, name, pos) is None,
    decreases parts.len(),
{
    if parts.len() > 0 {
        let p = parts[0];
        let rest = parts.drop_first();
        let m = (i + part_text(p).len()) as int;
        lemma_front(t, i, parts);
        assert forall|j: int| 0 <= j < rest.len() implies !is_named(#[trigger] rest[j], name) by {
            assert(rest[j] == parts[j + 1]);
        }
        assert(!is_named(parts[0], name));
        if p is Block {
            lemma_block_at(t, i, p->name, p->gap, p->body);
            lemma_block_found(t, i, p->name, p->gap, p->body);
            lemma_named_missing(t, name, m, m, rest);
        } else {
            lemma_part_passes(t, i, p);
            lemma_named_missing(t, name, pos, m, rest);
        }
    }
}

/// Parts with the first `client` block at `c` cut down to what is to be kept.
pub open spec fn with_client_kept(parts: Seq<Part>, c: int, keep: Seq<Seq<char>>) -> Seq<Part> {
    parts.update(
        c,
        Part::Block {
            name: parts[c]->name,
            gap: parts[c]->gap,
            body: kept_parts(parts[c]->body, keep),
        },
    )
}

proof fn lemma_all_kept(body: Seq<Part>, keep: Seq<Seq<char>>)
    requires
        is_script(body),
    ensures
        kept_blocks(parts_text(body), keep, 0) == parts_text(kept_parts(body, keep)),
{
    let inner = parts_text(body);
    assert(inner.subrange(0, inner.len() as int) =~= inner);
    lemma_kept(inner, keep, 0, 0, body);
    assert(kept_blocks(inner, keep, 0) =~= parts_text(kept_parts(body, keep)));
}

/// A block with another text between its braces.
proof fn lemma_other_body(
    t: Seq<char>,
    at: int,
    name: Seq<char>,
    gap: Seq<char>,
    open: int,
    close: int,
    kept: Seq<char>,
)
    requires
        0 <= at,
        open == at + name.len() + gap.len(),
        open < close < t.len(),
        occurs_at(t, at, name),
        occurs_at(t, at + name.len(), gap),
        t[open] == '{',
        t[close] == '}',
    ensures
        t.subrange(0, open + 1) + kept + t.subrange(close, t.len() as int) == t.subrange(0, at) + (
        name + gap + seq!['{'] + kept + seq!['}']) + t.subrange(close + 1, t.len() as int),
{
    let g = (at + name.len()) as int;
    assert(t.subrange(at, g) == name);
    assert(t.subrange(g, open) == gap);
    assert(t.subrange(0, open + 1) =~= t.subrange(0, at) + t.subrange(at, g) + t.subrange(g, open)
        + seq!['{']);
    assert(t.subrange(close, t.len() as int) =~= seq!['}'] + t.subrange(
        close + 1,
        t.len() as int,
    ));
    assert(t.subrange(0, open + 1) + kept + t.subrange(close, t.len() as int) =~= t.subrange(0, at)
        + (name + gap + seq!['{'] + kept + seq!['}']) + t.subrange(close + 1, t.len() as int));
}

/// Of a file's `client` block, the blocks directly in it stay that are to be kept, as
/// they are and in their order, and the others go. All that stands between the blocks
/// stays, and so does all outside of the `client` block.
#[verifier::rlimit(40)]
pub proof fn law_client_keeps_the_listed_blocks(parts: Seq<Part>, c: int, keep: Seq<Seq<char>>)
    requires
        is_script(parts),
        0 <= c < parts.len(),
        is_named(parts[c], "client"@),
        forall|j: int| 0 <= j < c ==> !is_named(#[trigger] parts[j], "client"@),
    ensures
        client_stripped(parts_text(parts), keep) == parts_text(with_client_kept(parts, c, keep)),
        parts_text(with_client_kept(parts, c, keep))[0] == parts_text(parts)[0],
{
    let t = parts_text(parts);
    let p = parts[c];
    let name = p->name;
    let gap = p->gap;
    let body = p->body;
    assert(t.subrange(0, t.len() as int) =~= t);
    let at = lemma_named_found(t, "client"@, 0, 0, parts, c);
    lemma_block_at(t, at, name, gap, body);
    lemma_block_found(t, at, name, gap, body);
    let open = (at + name.len() + gap.len()) as int;
    let close = (open + 1 + parts_text(body).len()) as int;
    let kept = parts_text(kept_parts(body, keep));
    assert(kept_blocks(t.subrange(open + 1, close), keep, 0) == kept) by {
        lemma_all_kept(body, keep);
    }
    let x = Part::Block { name, gap, body: kept_parts(body, keep) };
    assert(part_text(x) == name + gap + seq!['{'] + kept + seq!['}']);
    lemma_other_body(t, at, name, gap, open, close, kept);
    assert(parts.update(c, x) == with_client_kept(parts, c, keep));
    assert(client_stripped(t, keep) == t.subrange(0, open + 1) + kept + t.subrange(
        close,
        t.len() as int,
    ));
    assert(client_stripped(t, keep)[0] == t.subrange(0, open + 1)[0]);
}

/// A file without a `client` block stays as it is.
pub proof fn law_file_without_client_stays(parts: Seq<Part>, keep: Seq<Seq<char>>)
    requires
        is_script(parts),
        forall|j: int| 0 <= j < parts.len() ==> !is_named(#[trigger] parts[j], "client"@),
    ensures
        client_stripped(parts_text(parts), keep) == parts_text(parts),
{
    let t = parts_text(parts);
    assert(t.subrange(0, t.len() as int) =~= t);
    lemma_named_missing(t, "client"@, 0, 0, parts);
}

/// No block is left that is not to be kept, and each part that is left was there
/// before.
proof fn lemma_kept_are_listed(parts: Seq<Part>, keep: Seq<Seq<char>>)
    requires
        is_script(parts),
    ensures
        ({
            let kept = kept_parts(parts, keep);
            &&& is_script(kept)
            &&& kept_parts(kept, keep) == kept
            &&& forall|j: int|
                0 <= j < kept.len() && (#[trigger] kept[j]) is Block ==> keep.contains(
                    kept[j]->name,
                )
            &&& forall|j: int|
                0 <= j < parts.len() && ((#[trigger] parts[j]) is Block ==> keep.contains(
                    parts[j]->name,
                )) ==> kept.contains(parts[j])
            &&& parts.len() > 0 && !goes_on_with(parts[0]) ==> kept.len() > 0 && kept[0]
                == parts[0]
        }),
    decreases parts.len(),
{
    let kept = kept_parts(parts, keep);
    if parts.len() > 0 {
        let p = parts[0];
        let rest = parts.drop_first();
        let more = kept_parts(rest, keep);
        lemma_kept_are_listed(rest, keep);
        if p is Block && !keep.contains(p->name) {
            assert(kept == more);
            assert forall|j: int|
                0 <= j < parts.len() && ((#[trigger] parts[j]) is Block ==> keep.contains(
                    parts[j]->name,
                )) implies kept.contains(parts[j]) by {
                assert(rest[j - 1] == parts[j]);
            }
        } else {
            assert(kept == seq![p] + more);
            assert(kept[0] == p);
            assert(kept.drop_first() =~= more);
            if p is Word && rest.len() > 0 {
                assert(rest[0] == parts[1]);
                assert(kept[1] == more[0]);
            }
            assert(is_script(kept));
            assert(kept_parts(kept, keep) =~= kept);
            assert forall|j: int| 0 <= j < kept.len() && (#[trigger] kept[j]) is Block implies
                keep.contains(kept[j]->name) by {
                if j > 0 {
                    assert(kept[j] == more[j - 1]);
                }
            }
            assert forall|j: int|
                0 <= j < parts.len() && ((#[trigger] parts[j]) is Block ==> keep.contains(
                    parts[j]->name,
                )) implies kept.contains(parts[j]) by {
                if j > 0 {
                    assert(rest[j - 1] == parts[j]);
                    assert(more.contains(parts[j]));
                    let k = choose|k: int| 0 <= k < more.len() && more[k] == parts[j];
                    assert(kept[k + 1] == parts[j]);
                } else {
                    assert(kept[0] == parts[0]);
                }
            }
        }
    }
}

proof fn lemma_block_for_block(parts: Seq<Part>, c: int, x: Part)
    requires
        is_script(parts),
        0 <= c < parts.len(),
        parts[c] is Block,
        x is Block,
        is_part(x),
    ensures
        is_script(parts.update(c, x)),
    decreases parts.len(),
{
    let u = parts.update(c, x);
    let rest = parts.drop_first();
    if c == 0 {
        assert(u.drop_first() =~= rest);
    } else {
        assert(u.drop_first() =~= rest.update(c - 1, x));
        lemma_block_for_block(rest, c - 1, x);
        if c > 1 && parts.len() > 1 {
            assert(u[1] == parts[1]);
        } else {
            assert(u[1] == x);
            assert(goes_on_with(parts[1]));
        }
    }
}

proof fn lemma_is_part(parts: Seq<Part>, c: int)
    requires
        is_script(parts),
        0 <= c < parts.len(),
    ensures
        is_part(parts[c]),
    decreases parts.len(),
{
    if c > 0 {
        lemma_is_part(parts.drop_first(), c - 1);
        assert(parts.drop_first()[c - 1] == parts[c]);
    }
}

/// What is left of the `client` block holds no block directly in it that is not to be
/// kept, and every part that is to be kept. Doing it once more changes nothing.
pub proof fn law_client_is_left_with_the_listed_blocks(
    parts: Seq<Part>,
    c: int,
    keep: Seq<Seq<char>>,
)
    requires
        is_script(parts),
        0 <= c < parts.len(),
        is_named(parts[c], "client"@),
        forall|j: int| 0 <= j < c ==> !is_named(#[trigger] parts[j], "client"@),
    ensures
        ({
            let before = parts[c]->body;
            let after = with_client_kept(parts, c, keep)[c]->body;
            let once = client_stripped(parts_text(parts), keep);
            &&& is_script(with_client_kept(parts, c, keep))
            &&& once == parts_text(with_client_kept(parts, c, keep))
            &&& forall|j: int|
                0 <= j < after.len() && (#[trigger] after[j]) is Block ==> keep.contains(
                    after[j]->name,
                )
            &&& forall|j: int|
                0 <= j < before.len() && ((#[trigger] before[j]) is Block ==> keep.contains(
                    before[j]->name,
                )) ==> after.contains(before[j])
            &&& client_stripped(once, keep) == once
        }),
{
    let p = parts[c];
    let once = with_client_kept(parts, c, keep);
    lemma_is_part(parts, c);
    lemma_kept_are_listed(p->body, keep);
    lemma_block_for_block(parts, c, once[c]);
    law_client_keeps_the_listed_blocks(parts, c, keep);
    assert forall|j: int| 0 <= j < c implies !is_named(#[trigger] once[j], "client"@) by {
        assert(once[j] == parts[j]);
    }
    law_client_keeps_the_listed_blocks(once, c, keep);
    assert(with_client_kept(once, c, keep) =~= once);
}

/// A part with the named blocks in it emptied, but for those that hold white space
/// only.
pub open spec fn emptied_part(p: Part, names: Seq<Seq<char>>) -> Part
    decreases p,
{
    match p {
        Part::Block { name, gap, body } => if names.contains(name) && !blank(parts_text(body)) {
            Part::Block { name, gap: seq![' '], body: Seq::empty() }
        } else {
            Part::Block { name, gap, body: emptied_parts(body, names) }
        },
        _ => p,
    }
}

pub open spec fn emptied_parts(parts: Seq<Part>, names: Seq<Seq<char>>) -> Seq<Part>
    decreases parts,
{
    if parts.len() == 0 {
        parts
    } else {
        seq![emptied_part(parts[0], names)] + emptied_parts(parts.drop_first(), names)
    }
}

proof fn lemma_copied(t: Seq<char>, names: Seq<Seq<char>>, pos: int, e: int)
    requires
        0 <= pos <= e <= t.len(),
        next_block(t, pos) == next_block(t, e),
    ensures
        emptied(t, names, pos) == t.subrange(pos, e) + emptied(t, names, e),
{
    lemma_next_block(t, e);
    assert(emptied(t, names, pos) =~= t.subrange(pos, e) + emptied(t, names, e)) by {
        match next_block(t, e) {
            None => {},
            Some(b) => {
                assert(t.subrange(pos, b.name_end) =~= t.subrange(pos, e) + t.subrange(
                    e,
                    b.name_end,
                ));
                assert(t.subrange(pos, b.open + 1) =~= t.subrange(pos, e) + t.subrange(
                    e,
                    b.open + 1,
                ));
            },
        }
    }
}

proof fn lemma_part_emptied(t: Seq<char>, names: Seq<Seq<char>>, i: int, p: Part)
    requires
        occurs_at(t, i, part_text(p)),
        is_part(p),
        p is Word ==> is_apart(t, (i + part_text(p).len()) as int),
    ensures
        emptied(t, names, i) == part_text(emptied_part(p, names)) + emptied(
            t,
            names,
            (i + part_text(p).len()) as int,
        ),
    decreases p,
{
    let e = (i + part_text(p).len()) as int;
    assert(t.subrange(i, e) == part_text(p));
    if let Part::Block { name, gap, body } = p {
        lemma_block_at(t, i, name, gap, body);
        lemma_block_found(t, i, name, gap, body);
        let g = (i + name.len()) as int;
        let open = (g + gap.len()) as int;
        let close = (open + 1 + parts_text(body).len()) as int;
        assert(t.subrange(i, g) == name);
        assert(t.subrange(g, open) == gap);
        assert(t.subrange(open + 1, close) == parts_text(body));
        if names.contains(name) && !blank(parts_text(body)) {
            let none = Seq::<Part>::empty();
            let x = Part::Block { name, gap: seq![' '], body: none };
            assert(part_text(x) =~= name + seq![' ', '{', '}']) by {
                assert(parts_text(none) =~= Seq::<char>::empty());
            }
        } else {
            let inner = emptied_parts(body, names);
            lemma_parts_emptied(t, names, open + 1, body);
            lemma_copied(t, names, close, close + 1);
            let x = Part::Block { name, gap, body: inner };
            assert(t.subrange(i, open + 1) =~= t.subrange(i, g) + t.subrange(g, open)
                + seq!['{']);
            assert(t.subrange(close, close + 1) =~= seq!['}']);
            assert(part_text(x) == name + gap + seq!['{'] + parts_text(inner) + seq!['}']);
            assert(emptied(t, names, i) =~= part_text(x) + emptied(t, names, e));
        }
    } else {
        lemma_part_passes(t, i, p);
        lemma_copied(t, names, i, e);
    }
}

proof fn lemma_parts_emptied(t: Seq<char>, names: Seq<Seq<char>>, i: int, parts: Seq<Part>)
    requires
        occurs_at(t, i, parts_text(parts)),
        is_script(parts),
        ({
            let e = i + parts_text(parts).len();
            e == t.len() || t[e] == '}'
        }),
    ensures
        emptied(t, names, i) == parts_text(emptied_parts(parts, names)) + emptied(
            t,
            names,
            (i + parts_text(parts).len()) as int,
        ),
    decreases parts,
{
    if parts.len() == 0 {
        assert(parts_text(parts) + emptied(t, names, i) =~= emptied(t, names, i));
    } else {
        let p = parts[0];
        let rest = parts.drop_first();
        let m = (i + part_text(p).len()) as int;
        lemma_front(t, i, parts);
        lemma_part_emptied(t, names, i, p);
        lemma_parts_emptied(t, names, m, rest);
        lemma_parts_text_front(emptied_part(p, names), emptied_parts(rest, names));
        assert(emptied(t, names, i) =~= parts_text(emptied_parts(parts, names)) + emptied(
            t,
            names,
            (i + parts_text(parts).len()) as int,
        ));
    }
}

/// Emptying the named blocks leaves them with nothing between their braces, however
/// deep they stand, and leaves every other part as it is. Blocks with white space only
/// stay.
pub proof fn law_named_blocks_are_emptied(parts: Seq<Part>, names: Seq<Seq<char>>)
    requires
        is_script(parts),
    ensures
        emptied(parts_text(parts), names, 0) == parts_text(emptied_parts(parts, names)),
{
    let t = parts_text(parts);
    assert(t.subrange(0, t.len() as int) =~= t);
    lemma_parts_emptied(t, names, 0, parts);
    assert(emptied(t, names, t.len() as int) =~= Seq::<char>::empty());
    assert(parts_text(emptied_parts(parts, names)) + Seq::<char>::empty() =~= parts_text(
        emptied_parts(parts, names),
    ));
}

/// A script with a block in it holds something.
pub proof fn lemma_not_empty(parts: Seq<Part>)
    requires
        is_script(parts),
        parts.len() > 0,
    ensures
        parts_text(parts).len() > 0,
{
    let w = part_text(parts[0]);
    assert(w.subrange(0, w.len() as int) =~= w);
    lemma_begins(w, 0, parts[0]);
}

/// Emptying blocks does not change what a script begins with.
pub proof fn lemma_emptied_first(parts: Seq<Part>, names: Seq<Seq<char>>)
    requires
        is_script(parts),
    ensures
        ({
            let t = parts_text(parts);
            let u = parts_text(emptied_parts(parts, names));
            u.len() > 0 ==> t.len() > 0 && u[0] == t[0]
        }),
{
    if parts.len() > 0 {
        let p = parts[0];
        let q = emptied_part(p, names);
        lemma_not_empty(parts);
        lemma_parts_text_front(q, emptied_parts(parts.drop_first(), names));
        let w = part_text(p);
        assert(w.subrange(0, w.len() as int) =~= w);
        lemma_begins(w, 0, p);
        if let Part::Block { name, gap, body } = p {
            assert(is_part(p));
            assert(is_name(name));
            assert(part_text(q)[0] == name[0]);
            assert(part_text(p)[0] == name[0]);
        }
    }
}

} // verus!
