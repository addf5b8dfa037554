//! Edits of script and graph texts: taking calls out, emptying arrays.

use crate::blocks::{lemma_space_end, skip_space, space_end};
use crate::text::{
    char_range, chars_of, find_chars, find_from, index_of_char, lemma_find_from, position_of_char,
    push_chars,
};
use vstd::prelude::*;

verus! {

/// The characters of a call's name: ASCII letters and digits, the underscore and
/// the dot.
pub open spec fn in_call_name(c: char) -> bool {
    'a' <= c <= 'z' || 'A' <= c <= 'Z' || '0' <= c <= '9' || c == '_' || c == '.'
}

/// Where the name begins that goes on at `i`.
pub open spec fn call_start(t: Seq<char>, i: int) -> int
    decreases i,
{
    if 0 < i <= t.len() && in_call_name(t[i - 1]) {
        call_start(t, i - 1)
    } else {
        i
    }
}

/// Behind the `close` that ends what goes on at `i` with `depth` of `open` open.
pub open spec fn closed_at(t: Seq<char>, open: char, close: char, i: int, depth: int) -> Option<
    int,
>
    decreases t.len() - i,
{
    if i < 0 || i >= t.len() {
        None
    } else if t[i] == open {
        closed_at(t, open, close, i + 1, depth + 1)
    } else if t[i] == close {
        if depth <= 1 {
            Some(i + 1)
        } else {
            closed_at(t, open, close, i + 1, depth - 1)
        }
    } else {
        closed_at(t, open, close, i + 1, depth)
    }
}

pub proof fn lemma_closed_at(t: Seq<char>, open: char, close: char, i: int, depth: int)
    requires
        0 <= i,
    ensures
        closed_at(t, open, close, i, depth) matches Some(e) ==> i < e <= t.len(),
    decreases t.len() - i,
{
    if i < t.len() {
        if t[i] == open {
            lemma_closed_at(t, open, close, i + 1, depth + 1);
        } else if t[i] == close {
            lemma_closed_at(t, open, close, i + 1, depth - 1);
        } else {
            lemma_closed_at(t, open, close, i + 1, depth);
        }
    }
}

/// Behind the `close` that ends what goes on at `start`, one `open` being open.
fn find_closed(t: &[char], open: char, close: char, start: usize) -> (r: Option<usize>)
    requires
        open != close,
        start >= 1,
    ensures
        match r {
            Some(e) => closed_at(t@, open, close, start as int, 1) == Some(e as int) && start < e
                <= t@.len(),
            None => closed_at(t@, open, close, start as int, 1) is None,
        },
{
    let n: usize = t.len();
    let mut depth: usize = 1;
    let mut i: usize = start;
    while i < n
        invariant
            n == t@.len(),
            1 <= start <= i,
            open != close,
            1 <= depth <= i - start + 1,
            closed_at(t@, open, close, start as int, 1) == closed_at(
                t@,
                open,
                close,
                i as int,
                depth as int,
            ),
        decreases n - i,
    {
        if t[i] == open {
            depth = depth + 1;
        } else if t[i] == close {
            if depth == 1 {
                return Some(i + 1);
            }
            depth = depth - 1;
        }
        i = i + 1;
    }
    None
}

pub proof fn lemma_call_start(t: Seq<char>, i: int)
    requires
        0 <= i <= t.len(),
    ensures
        0 <= call_start(t, i) <= i,
    decreases i,
{
    if i > 0 && in_call_name(t[i - 1]) {
        lemma_call_start(t, i - 1);
    }
}

fn find_call_start(t: &[char], found: usize) -> (r: usize)
    requires
        found <= t@.len(),
    ensures
        r == call_start(t@, found as int),
        r <= found,
{
    let mut i: usize = found;
    while i > 0
        invariant
            i <= found <= t@.len(),
            call_start(t@, found as int) == call_start(t@, i as int),
        decreases i,
    {
        let c = t[i - 1];
        if ('a' <= c && c <= 'z') || ('A' <= c && c <= 'Z') || ('0' <= c && c <= '9') || c == '_'
            || c == '.' {
            i = i - 1;
        } else {
            return i;
        }
    }
    i
}

/// Behind the semicolon of the call of `func` at `found`, where there is one:
/// the name, an argument list in parentheses, a semicolon, with white space
/// between them.
pub open spec fn call_end(t: Seq<char>, func: Seq<char>, found: int) -> Option<int> {
    let paren = space_end(t, found + func.len());
    if paren >= t.len() || t[paren] != '(' {
        None
    } else {
        match closed_at(t, '(', ')', paren + 1, 1) {
            None => None,
            Some(e) => {
                let end = space_end(t, e);
                if end < t.len() && t[end] == ';' {
                    Some(end + 1)
                } else {
                    None
                }
            },
        }
    }
}

pub proof fn lemma_call_end(t: Seq<char>, func: Seq<char>, found: int)
    requires
        0 <= found,
        found + func.len() <= t.len(),
    ensures
        call_end(t, func, found) matches Some(e) ==> found + func.len() < e <= t.len(),
{
    lemma_space_end(t, (found + func.len()) as int);
    let paren = space_end(t, found + func.len());
    lemma_closed_at(t, '(', ')', paren + 1, 1);
    if let Some(e) = closed_at(t, '(', ')', paren + 1, 1) {
        lemma_space_end(t, e);
    }
}

/// The text with the calls of `func` from `pos` on taken out, with the objects
/// they are called on.
pub open spec fn calls_removed(t: Seq<char>, func: Seq<char>, pos: int) -> Seq<char>
    decreases t.len() - pos,
{
    if func.len() == 0 || pos < 0 {
        t
    } else {
        match find_from(t, func, pos) {
            None => t,
            Some(found) => {
                proof {
                    lemma_find_from(t, func, pos);
                    lemma_call_start(t, found);
                    lemma_call_end(t, func, found);
                }
                match call_end(t, func, found) {
                    None => calls_removed(t, func, found + 1),
                    Some(end) => {
                        let start = call_start(t, found);
                        calls_removed(
                            t.subrange(0, start) + t.subrange(end, t.len() as int),
                            func,
                            start,
                        )
                    },
                }
            },
        }
    }
}

fn find_call_end(t: &[char], func: &[char], found: usize) -> (r: Option<usize>)
    requires
        found + func@.len() <= t@.len(),
    ensures
        match r {
            Some(e) => call_end(t@, func@, found as int) == Some(e as int) && found < e <= t@.len(),
            None => call_end(t@, func@, found as int) is None,
        },
{
    let n: usize = t.len();
    let paren: usize = skip_space(t, found + func.len());
    if paren >= n || t[paren] != '(' {
        return None;
    }
    match find_closed(t, '(', ')', paren + 1) {
        None => None,
        Some(e) => {
            let end: usize = skip_space(t, e);
            if end < n && t[end] == ';' {
                Some(end + 1)
            } else {
                None
            }
        },
    }
}

/// Takes the calls of `func` out of a text, with the objects they are called on.
pub fn remove_function_calls(data: &[char], func: &[char]) -> (r: Vec<char>)
    ensures
        r@ == calls_removed(data@, func@, 0),
{
    let mut t = char_range(data, 0, data.len());
    let mut pos: usize = 0;
    assert(t@ =~= data@);
    if func.len() == 0 {
        return t;
    }
    loop
        invariant
            func@.len() > 0,
            pos <= t@.len(),
            calls_removed(data@, func@, 0) == calls_removed(t@, func@, pos as int),
        decreases t@.len() - pos,
    {
        proof {
            lemma_find_from(t@, func@, pos as int);
        }
        let total: usize = t.len();
        assert(total == t@.len());
        match find_chars(t.as_slice(), func, pos) {
            None => return t,
            Some(found) => match find_call_end(t.as_slice(), func, found) {
                None => {
                    pos = found + 1;
                },
                Some(end) => {
                    let start: usize = find_call_start(t.as_slice(), found);
                    let mut next = char_range(t.as_slice(), 0, start);
                    let tail = char_range(t.as_slice(), end, t.len());
                    push_chars(&mut next, tail.as_slice());
                    t = next;
                    pos = start;
                },
            },
        }
    }
}

/// `"name":`, as it stands in front of the value of a property.
pub open spec fn property_key(property: Seq<char>) -> Seq<char> {
    seq!['"'] + property + seq!['"', ':']
}

/// `"name": [],`
pub open spec fn empty_array_entry(property: Seq<char>) -> Seq<char> {
    seq!['"'] + property + seq!['"', ':', ' ', '[', ']', ',']
}

/// The text with the first array of the property emptied, where the array ends
/// and a comma follows within five characters.
pub open spec fn array_emptied(t: Seq<char>, property: Seq<char>) -> Seq<char> {
    match find_from(t, property_key(property), 0) {
        None => t,
        Some(index) => {
            let open = index_of_char(t, '[', index);
            match closed_at(t, '[', ']', open + 1, 1) {
                None => t,
                Some(end) => {
                    let comma = index_of_char(t, ',', end - 1);
                    if comma < t.len() && comma < end + 5 {
                        t.subrange(0, index) + empty_array_entry(property) + t.subrange(
                            comma + 1,
                            t.len() as int,
                        )
                    } else {
                        t
                    }
                },
            }
        },
    }
}

fn property_text(property: &[char], tail: &str) -> (r: Vec<char>)
    ensures
        r@ == seq!['"'] + property@ + tail@,
{
    let mut out: Vec<char> = Vec::new();
    out.push('"');
    push_chars(&mut out, property);
    let end = chars_of(tail);
    push_chars(&mut out, end.as_slice());
    assert(out@ =~= seq!['"'] + property@ + tail@);
    out
}

/// Empties the first array of a property.
pub fn replace_array_property(t: &[char], property: &[char]) -> (r: Vec<char>)
    ensures
        r@ == array_emptied(t@, property@),
{
    let n: usize = t.len();
    let same = char_range(t, 0, n);
    assert(same@ =~= t@);
    let pattern = property_text(property, "\":");
    proof {
        reveal_strlit("\":");
        assert(pattern@ =~= property_key(property@));
        lemma_find_from(t@, property_key(property@), 0);
    }
    let index: usize = match find_chars(t, pattern.as_slice(), 0) {
        Some(i) => i,
        None => return same,
    };
    let open: usize = position_of_char(t, '[', index);
    if open >= n {
        return same;
    }
    let end: usize = match find_closed(t, '[', ']', open + 1) {
        Some(e) => e,
        None => return same,
    };
    let comma: usize = position_of_char(t, ',', end - 1);
    if comma < n && comma - (end - 1) < 6 {
        let mut out = char_range(t, 0, index);
        let entry = property_text(property, "\": [],");
        proof {
            reveal_strlit("\": [],");
            assert(entry@ =~= empty_array_entry(property@));
        }
        push_chars(&mut out, entry.as_slice());
        let tail = char_range(t, comma + 1, n);
        push_chars(&mut out, tail.as_slice());
        out
    } else {
        same
    }
}

} // verus!
