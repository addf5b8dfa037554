//! Laws of the changes to blocks: what emptying named blocks leaves is a text in
//! which every one of them is empty, and which emptying does not change any more;
//! and in a closed block every block is closed.

use crate::blocks::{
    array_end, ascii_space, emptied, in_name, kept_blocks, lemma_array_end, lemma_matching_brace,
    lemma_name_end, lemma_next_block, lemma_quoted_end, lemma_space_end, lemma_string_end,
    lemma_syntax_end, matching_brace, name_end, next_block, opens_quoted, opens_syntax,
    quoted_end, space_end, starts_name, string_end, syntax_end, Block,
};
use crate::splices::{are_ranges, lemma_with_range, spliced, with_range};
use crate::text::{
    blank, find_from, index_of_char, lemma_find_from, lemma_index_of_char, occurs_at,
    unicode_whitespace,
};
use vstd::prelude::*;

verus! {

/// Whether each of the named blocks that a scan from `pos` on meets is empty, or
/// holds white space only.
pub open spec fn quiet(t: Seq<char>, names: Seq<Seq<char>>, pos: int) -> bool
    decreases t.len() - pos,
{
    if pos < 0 {
        true
    } else {
        match next_block(t, pos) {
            None => true,
            Some(b) => {
                proof {
                    lemma_next_block(t, pos);
                }
                match matching_brace(t, b.open + 1, 1) {
                    None => true,
                    Some(close) => {
                        &&& names.contains(b.name(t)) ==> blank(t.subrange(b.open + 1, close))
                        &&& quiet(t, names, b.open + 1)
                    },
                }
            },
        }
    }
}

/// Whether `t` from `i` on and `u` from `j` on have their next `n` characters in
/// common.
spec fn agree(t: Seq<char>, i: int, u: Seq<char>, j: int, n: int) -> bool {
    &&& 0 <= i
    &&& 0 <= j
    &&& 0 <= n
    &&& i + n <= t.len()
    &&& j + n <= u.len()
    &&& forall|k: int| 0 <= k < n ==> #[trigger] t[i + k] == u[j + k]
}

/// Whether those characters are all that is left of both.
spec fn to_end(t: Seq<char>, i: int, u: Seq<char>, j: int, n: int) -> bool {
    i + n == t.len() && j + n == u.len()
}

proof fn lemma_agree_behind(t: Seq<char>, i: int, u: Seq<char>, j: int, n: int, m: int)
    requires
        agree(t, i, u, j, n),
        0 <= m <= n,
    ensures
        agree(t, i + m, u, j + m, n - m),
        to_end(t, i, u, j, n) == to_end(t, i + m, u, j + m, n - m),
{
    assert forall|k: int| 0 <= k < n - m implies #[trigger] t[i + m + k] == u[j + m + k] by {
        assert(t[i + (m + k)] == u[j + (m + k)]);
    }
}

proof fn lemma_first(t: Seq<char>, i: int, u: Seq<char>, j: int, n: int)
    requires
        agree(t, i, u, j, n),
    ensures
        n > 0 ==> t[i] == u[j],
        n > 1 ==> t[i + 1] == u[j + 1],
{
    if n > 0 {
        assert(t[i + 0] == u[j + 0]);
    }
    if n > 1 {
        assert(t[i + 1] == u[j + 1]);
    }
}

proof fn lemma_name_end_moves(t: Seq<char>, i: int, u: Seq<char>, j: int, n: int)
    requires
        agree(t, i, u, j, n),
        to_end(t, i, u, j, n) || name_end(t, i) - i < n,
    ensures
        name_end(u, j) - j == name_end(t, i) - i,
    decreases n,
{
    lemma_name_end(t, i);
    lemma_first(t, i, u, j, n);
    if n > 0 && in_name(t[i]) {
        lemma_agree_behind(t, i, u, j, n, 1);
        lemma_name_end_moves(t, i + 1, u, j + 1, n - 1);
    }
}

proof fn lemma_space_end_moves(t: Seq<char>, i: int, u: Seq<char>, j: int, n: int)
    requires
        agree(t, i, u, j, n),
        to_end(t, i, u, j, n) || space_end(t, i) - i < n,
    ensures
        space_end(u, j) - j == space_end(t, i) - i,
    decreases n,
{
    lemma_space_end(t, i);
    lemma_first(t, i, u, j, n);
    if n > 0 && ascii_space(t[i]) {
        lemma_agree_behind(t, i, u, j, n, 1);
        lemma_space_end_moves(t, i + 1, u, j + 1, n - 1);
    }
}

proof fn lemma_string_end_moves(t: Seq<char>, i: int, u: Seq<char>, j: int, n: int)
    requires
        agree(t, i, u, j, n),
        to_end(t, i, u, j, n) || (string_end(t, i) - i <= n && i + n < t.len()),
    ensures
        string_end(u, j) - j == string_end(t, i) - i,
    decreases n,
{
    lemma_first(t, i, u, j, n);
    lemma_string_end(t, i);
    if i < t.len() {
        if t[i] == '\\' && i + 1 < t.len() {
            lemma_string_end(t, i + 2);
            lemma_agree_behind(t, i, u, j, n, 2);
            lemma_string_end_moves(t, i + 2, u, j + 2, n - 2);
        } else if t[i] == '"' {
        } else {
            lemma_string_end(t, i + 1);
            lemma_agree_behind(t, i, u, j, n, 1);
            lemma_string_end_moves(t, i + 1, u, j + 1, n - 1);
        }
    }
}

proof fn lemma_index_moves(t: Seq<char>, i: int, u: Seq<char>, j: int, n: int, c: char)
    requires
        agree(t, i, u, j, n),
        to_end(t, i, u, j, n) || index_of_char(t, c, i) - i < n,
    ensures
        index_of_char(u, c, j) - j == index_of_char(t, c, i) - i,
    decreases n,
{
    lemma_first(t, i, u, j, n);
    lemma_index_of_char(t, c, i);
    if n > 0 && t[i] != c {
        lemma_agree_behind(t, i, u, j, n, 1);
        lemma_index_moves(t, i + 1, u, j + 1, n - 1, c);
    }
}

proof fn lemma_pair_occurs(t: Seq<char>, i: int, a: char, b: char)
    requires
        0 <= i,
    ensures
        occurs_at(t, i, seq![a, b]) <==> i + 2 <= t.len() && t[i] == a && t[i + 1] == b,
{
    let p = seq![a, b];
    if i + 2 <= t.len() {
        let s = t.subrange(i, i + 2);
        assert(s[0] == t[i] && s[1] == t[i + 1]);
        if t[i] == a && t[i + 1] == b {
            assert(s =~= p);
        }
    }
}

proof fn lemma_find_moves(t: Seq<char>, i: int, u: Seq<char>, j: int, n: int, a: char, b: char)
    requires
        agree(t, i, u, j, n),
        to_end(t, i, u, j, n) || (find_from(t, seq![a, b], i) matches Some(p) && p + 2 - i <= n),
    ensures
        match find_from(t, seq![a, b], i) {
            Some(p) => find_from(u, seq![a, b], j) == Some(p - i + j),
            None => find_from(u, seq![a, b], j) is None,
        },
    decreases n,
{
    lemma_first(t, i, u, j, n);
    lemma_find_from(t, seq![a, b], i);
    lemma_pair_occurs(t, i, a, b);
    lemma_pair_occurs(u, j, a, b);
    if n >= 2 && !occurs_at(t, i, seq![a, b]) {
        lemma_agree_behind(t, i, u, j, n, 1);
        lemma_find_moves(t, i + 1, u, j + 1, n - 1, a, b);
    }
}

proof fn lemma_quoted_end_moves(t: Seq<char>, i: int, u: Seq<char>, j: int, n: int)
    requires
        agree(t, i, u, j, n),
        opens_quoted(t, i),
        to_end(t, i, u, j, n) || (quoted_end(t, i) - i <= n && i + n < t.len()),
    ensures
        opens_quoted(u, j),
        quoted_end(u, j) - j == quoted_end(t, i) - i,
{
    lemma_first(t, i, u, j, n);
    lemma_quoted_end(t, i);
    if t[i] == '"' {
        lemma_string_end(t, i + 1);
        lemma_agree_behind(t, i, u, j, n, 1);
        lemma_string_end_moves(t, i + 1, u, j + 1, n - 1);
    } else if t[i + 1] == '/' {
        lemma_index_of_char(t, '\n', i + 2);
        lemma_agree_behind(t, i, u, j, n, 2);
        lemma_index_moves(t, i + 2, u, j + 2, n - 2, '\n');
        lemma_index_of_char(u, '\n', j + 2);
    } else {
        lemma_find_from(t, seq!['*', '/'], i + 2);
        lemma_agree_behind(t, i, u, j, n, 2);
        lemma_find_moves(t, i + 2, u, j + 2, n - 2, '*', '/');
    }
}

proof fn lemma_not_quoted_moves(t: Seq<char>, i: int, u: Seq<char>, j: int, n: int)
    requires
        agree(t, i, u, j, n),
        n > 0,
        !opens_quoted(t, i),
        to_end(t, i, u, j, n) || n > 1 || t[i] != '/',
    ensures
        !opens_quoted(u, j),
        t[i] == u[j],
{
    lemma_first(t, i, u, j, n);
}

proof fn lemma_array_end_moves(
    t: Seq<char>,
    i: int,
    u: Seq<char>,
    j: int,
    n: int,
    depth: int,
)
    requires
        agree(t, i, u, j, n),
        to_end(t, i, u, j, n) || (array_end(t, i, depth) - i <= n && i + n < t.len()),
    ensures
        array_end(u, j, depth) - j == array_end(t, i, depth) - i,
    decreases n,
{
    lemma_array_end(t, i, depth);
    if i < t.len() && depth > 0 {
        if opens_quoted(t, i) {
            lemma_quoted_end(t, i);
            let e = quoted_end(t, i);
            lemma_array_end(t, e, depth);
            lemma_quoted_end_moves(t, i, u, j, n);
            lemma_agree_behind(t, i, u, j, n, e - i);
            lemma_array_end_moves(t, e, u, j + (e - i), n - (e - i), depth);
        } else {
            let d = if t[i] == '[' {
                depth + 1
            } else if t[i] == ']' {
                depth - 1
            } else {
                depth
            };
            lemma_array_end(t, i + 1, d);
            if n == 1 && i + n < t.len() && d > 0 {
                // Something more belongs to the array.
                lemma_array_goes_on(t, i + 1, d);
            }
            lemma_not_quoted_moves(t, i, u, j, n);
            lemma_agree_behind(t, i, u, j, n, 1);
            lemma_array_end_moves(t, i + 1, u, j + 1, n - 1, d);
        }
    }
}

proof fn lemma_array_goes_on(t: Seq<char>, i: int, depth: int)
    requires
        0 <= i < t.len(),
        depth > 0,
    ensures
        array_end(t, i, depth) > i,
{
    if opens_quoted(t, i) {
        lemma_quoted_end(t, i);
        lemma_array_end(t, quoted_end(t, i), depth);
    } else {
        lemma_array_end(t, i + 1, depth + 1);
        lemma_array_end(t, i + 1, depth - 1);
        lemma_array_end(t, i + 1, depth);
    }
}

proof fn lemma_syntax_end_moves(t: Seq<char>, i: int, u: Seq<char>, j: int, n: int)
    requires
        agree(t, i, u, j, n),
        opens_syntax(t, i),
        to_end(t, i, u, j, n) || (syntax_end(t, i) - i <= n && i + n < t.len()),
    ensures
        opens_syntax(u, j),
        syntax_end(u, j) - j == syntax_end(t, i) - i,
{
    lemma_syntax_end(t, i);
    if opens_quoted(t, i) {
        lemma_quoted_end_moves(t, i, u, j, n);
    } else {
        lemma_not_quoted_moves(t, i, u, j, n);
        lemma_agree_behind(t, i, u, j, n, 1);
        lemma_array_end_moves(t, i + 1, u, j + 1, n - 1, 1);
    }
}

proof fn lemma_matching_brace_moves(
    t: Seq<char>,
    i: int,
    u: Seq<char>,
    j: int,
    n: int,
    depth: int,
)
    requires
        agree(t, i, u, j, n),
        to_end(t, i, u, j, n),
    ensures
        match matching_brace(t, i, depth) {
            Some(c) => matching_brace(u, j, depth) == Some(c - i + j),
            None => matching_brace(u, j, depth) is None,
        },
    decreases n,
{
    if i < t.len() {
        if opens_syntax(t, i) {
            lemma_syntax_end(t, i);
            let e = syntax_end(t, i);
            lemma_syntax_end_moves(t, i, u, j, n);
            lemma_agree_behind(t, i, u, j, n, e - i);
            lemma_matching_brace_moves(t, e, u, j + (e - i), n - (e - i), depth);
        } else {
            lemma_not_quoted_moves(t, i, u, j, n);
            lemma_agree_behind(t, i, u, j, n, 1);
            let d = if t[i] == '{' {
                depth + 1
            } else if t[i] == '}' {
                depth - 1
            } else {
                depth
            };
            lemma_matching_brace_moves(t, i + 1, u, j + 1, n - 1, d);
        }
    }
}

/// A block as it stands further on in another text.
spec fn moved(b: Block, by: int) -> Block {
    Block { start: b.start + by, name_end: b.name_end + by, open: b.open + by }
}

proof fn lemma_next_block_moves_to_end(t: Seq<char>, i: int, u: Seq<char>, j: int, n: int)
    requires
        agree(t, i, u, j, n),
        to_end(t, i, u, j, n),
    ensures
        match next_block(t, i) {
            Some(b) => next_block(u, j) == Some(moved(b, j - i)),
            None => next_block(u, j) is None,
        },
    decreases n,
{
    if i < t.len() {
        if opens_syntax(t, i) {
            lemma_syntax_end(t, i);
            let e = syntax_end(t, i);
            lemma_syntax_end_moves(t, i, u, j, n);
            lemma_agree_behind(t, i, u, j, n, e - i);
            lemma_next_block_moves_to_end(t, e, u, j + (e - i), n - (e - i));
        } else {
            lemma_not_quoted_moves(t, i, u, j, n);
            lemma_agree_behind(t, i, u, j, n, 1);
            if starts_name(t[i]) {
                lemma_name_end(t, i + 1);
                let e = name_end(t, i + 1);
                lemma_space_end(t, e);
                let o = space_end(t, e);
                lemma_name_end_moves(t, i + 1, u, j + 1, n - 1);
                lemma_agree_behind(t, i, u, j, n, e - i);
                lemma_space_end_moves(t, e, u, j + (e - i), n - (e - i));
                lemma_agree_behind(t, i, u, j, n, o - i);
                lemma_first(t, o, u, j + (o - i), n - (o - i));
                lemma_next_block_moves_to_end(t, o, u, j + (o - i), n - (o - i));
            } else {
                lemma_next_block_moves_to_end(t, i + 1, u, j + 1, n - 1);
            }
        }
    }
}

proof fn lemma_name_end_is(u: Seq<char>, j: int, m: int)
    requires
        0 <= j <= m <= u.len(),
        forall|k: int| j <= k < m ==> in_name(#[trigger] u[k]),
        m < u.len() ==> !in_name(u[m]),
    ensures
        name_end(u, j) == m,
    decreases m - j,
{
    if j < m {
        assert(in_name(u[j]));
        lemma_name_end_is(u, j + 1, m);
    }
}

/// The first block is found by its name, whatever stands behind the name, as long
/// as a brace opens there.
proof fn lemma_next_block_moves(t: Seq<char>, i: int, u: Seq<char>, j: int, b: Block)
    requires
        0 <= i,
        next_block(t, i) == Some(b),
        agree(t, i, u, j, b.name_end - i),
        ({
            let m = b.name_end - i + j;
            &&& m < u.len()
            &&& !in_name(u[m])
            &&& space_end(u, m) < u.len()
            &&& u[space_end(u, m)] == '{'
        }),
    ensures
        ({
            let m = b.name_end - i + j;
            next_block(u, j) == Some(
                Block { start: b.start - i + j, name_end: m, open: space_end(u, m) },
            )
        }),
    decreases t.len() - i,
{
    lemma_next_block(t, i);
    let n = b.name_end - i;
    let m = n + j;
    if opens_syntax(t, i) {
        lemma_syntax_end(t, i);
        let e = syntax_end(t, i);
        lemma_next_block(t, e);
        lemma_syntax_end_moves(t, i, u, j, n);
        lemma_agree_behind(t, i, u, j, n, e - i);
        lemma_next_block_moves(t, e, u, j + (e - i), b);
    } else if starts_name(t[i]) {
        lemma_not_quoted_moves(t, i, u, j, n);
        lemma_name_end(t, i + 1);
        let e = name_end(t, i + 1);
        lemma_space_end(t, e);
        let o = space_end(t, e);
        if o < t.len() && t[o] == '{' {
            assert forall|k: int| j + 1 <= k < m implies in_name(#[trigger] u[k]) by {
                assert(t[i + (k - j)] == u[j + (k - j)]);
                assert(in_name(t[i + (k - j)]));
            }
            lemma_name_end_is(u, j + 1, m);
        } else {
            lemma_next_block(t, o);
            lemma_agree_behind(t, i, u, j, n, 1);
            lemma_name_end_moves(t, i + 1, u, j + 1, n - 1);
            lemma_agree_behind(t, i, u, j, n, e - i);
            lemma_space_end_moves(t, e, u, j + (e - i), n - (e - i));
            lemma_agree_behind(t, i, u, j, n, o - i);
            lemma_first(t, o, u, j + (o - i), n - (o - i));
            lemma_next_block_moves(t, o, u, j + (o - i), b);
        }
    } else {
        lemma_next_block(t, i + 1);
        lemma_not_quoted_moves(t, i, u, j, n);
        lemma_agree_behind(t, i, u, j, n, 1);
        lemma_next_block_moves(t, i + 1, u, j + 1, b);
    }
}

/// A character that begins nothing is passed over.
proof fn lemma_pass_over(t: Seq<char>, names: Seq<Seq<char>>, i: int)
    requires
        0 <= i < t.len(),
        t[i] == '}' || unicode_whitespace(t[i]),
    ensures
        next_block(t, i) == next_block(t, i + 1),
        quiet(t, names, i) == quiet(t, names, i + 1),
        emptied(t, names, i) == seq![t[i]] + emptied(t, names, i + 1),
{
    assert(!opens_syntax(t, i));
    assert(!starts_name(t[i]));
    assert(next_block(t, i) == next_block(t, i + 1));
    lemma_next_block(t, i + 1);
    match next_block(t, i + 1) {
        None => {
            assert(t.subrange(i, t.len() as int) =~= seq![t[i]] + t.subrange(
                i + 1,
                t.len() as int,
            ));
        },
        Some(b) => {
            lemma_matching_brace(t, b.open + 1, 1);
            assert(t.subrange(i, t.len() as int) =~= seq![t[i]] + t.subrange(
                i + 1,
                t.len() as int,
            ));
            assert(t.subrange(i, b.name_end) =~= seq![t[i]] + t.subrange(i + 1, b.name_end));
            assert(t.subrange(i, b.open + 1) =~= seq![t[i]] + t.subrange(i + 1, b.open + 1));
            match matching_brace(t, b.open + 1, 1) {
                None => {},
                Some(close) => {
                    assert(t.subrange(i, b.name_end) + seq![' ', '{', '}'] + emptied(
                        t,
                        names,
                        close + 1,
                    ) =~= seq![t[i]] + (t.subrange(i + 1, b.name_end) + seq![' ', '{', '}']
                        + emptied(t, names, close + 1)));
                    assert(t.subrange(i, b.open + 1) + emptied(t, names, b.open + 1)
                        =~= seq![t[i]] + (t.subrange(i + 1, b.open + 1) + emptied(
                        t,
                        names,
                        b.open + 1,
                    )));
                },
            }
        },
    }
}

/// A blank body and its brace stay as they are.
proof fn lemma_blank_body_stays(t: Seq<char>, names: Seq<Seq<char>>, i: int, close: int)
    requires
        0 <= i <= close < t.len(),
        t[close] == '}',
        blank(t.subrange(i, close)),
    ensures
        emptied(t, names, i) == t.subrange(i, close + 1) + emptied(t, names, close + 1),
    decreases close - i,
{
    if i < close {
        assert(t.subrange(i, close)[0] == t[i]);
    }
    lemma_pass_over(t, names, i);
    if i < close {
        assert forall|k: int| 0 <= k < t.subrange(i + 1, close).len() implies unicode_whitespace(
            #[trigger] t.subrange(i + 1, close)[k],
        ) by {
            assert(t.subrange(i, close)[k + 1] == t.subrange(i + 1, close)[k]);
        }
        lemma_blank_body_stays(t, names, i + 1, close);
        assert(t.subrange(i, close + 1) =~= seq![t[i]] + t.subrange(i + 1, close + 1));
    } else {
        assert(t.subrange(i, close + 1) =~= seq![t[i]]);
    }
    assert(emptied(t, names, i) =~= t.subrange(i, close + 1) + emptied(t, names, close + 1));
}

proof fn lemma_blank_body_closes(u: Seq<char>, i: int, close: int)
    requires
        0 <= i <= close < u.len(),
        u[close] == '}',
        blank(u.subrange(i, close)),
    ensures
        matching_brace(u, i, 1) == Some(close),
    decreases close - i,
{
    if i < close {
        assert(u.subrange(i, close)[0] == u[i]);
        assert forall|k: int| 0 <= k < u.subrange(i + 1, close).len() implies unicode_whitespace(
            #[trigger] u.subrange(i + 1, close)[k],
        ) by {
            assert(u.subrange(i, close)[k + 1] == u.subrange(i + 1, close)[k]);
        }
        lemma_blank_body_closes(u, i + 1, close);
    }
}

/// A text that is copied is quiet if no block is found in it, or the first is not
/// closed.
proof fn lemma_copied_is_quiet(t: Seq<char>, names: Seq<Seq<char>>, pos: int, front: Seq<char>)
    requires
        0 <= pos <= t.len(),
        match next_block(t, pos) {
            None => true,
            Some(b) => matching_brace(t, b.open + 1, 1) is None,
        },
    ensures
        quiet(front + t.subrange(pos, t.len() as int), names, front.len() as int),
{
    let u = front + t.subrange(pos, t.len() as int);
    let j = front.len() as int;
    let n = t.len() - pos;
    lemma_next_block(t, pos);
    assert(agree(t, pos, u, j, n));
    lemma_next_block_moves_to_end(t, pos, u, j, n);
    match next_block(t, pos) {
        None => {},
        Some(b) => {
            let m = b.open + 1 - pos;
            lemma_agree_behind(t, pos, u, j, n, m);
            lemma_matching_brace_moves(t, b.open + 1, u, j + m, n - m, 1);
        },
    }
}

/// A block that was emptied is quiet, if what comes behind it is.
proof fn lemma_emptied_block_is_quiet(
    t: Seq<char>,
    names: Seq<Seq<char>>,
    pos: int,
    b: Block,
    front: Seq<char>,
    rest: Seq<char>,
)
    requires
        0 <= pos <= t.len(),
        next_block(t, pos) == Some(b),
        ({
            let head = t.subrange(pos, b.name_end) + seq![' ', '{', '}'];
            quiet(front + head + rest, names, (front + head).len() as int)
        }),
    ensures
        ({
            let head = t.subrange(pos, b.name_end) + seq![' ', '{', '}'];
            quiet(front + head + rest, names, front.len() as int)
        }),
{
    lemma_next_block(t, pos);
    let head = t.subrange(pos, b.name_end) + seq![' ', '{', '}'];
    let u = front + head + rest;
    let j = front.len() as int;
    let w = b.name_end - pos;
    assert(agree(t, pos, u, j, w));
    assert(u[j + w] == ' ' && u[j + w + 1] == '{' && u[j + w + 2] == '}');
    assert(space_end(u, j + w) == j + w + 1) by {
        reveal_with_fuel(space_end, 3);
    }
    lemma_next_block_moves(t, pos, u, j, b);
    assert(blank(u.subrange(j + w + 2, j + w + 2)));
    lemma_blank_body_closes(u, j + w + 2, j + w + 2);
    lemma_pass_over(u, names, j + w + 2);
    assert((front + head).len() == j + w + 3);
}

/// A block that was left as it is is found again.
proof fn lemma_kept_block_is_found(
    t: Seq<char>,
    pos: int,
    b: Block,
    front: Seq<char>,
    rest: Seq<char>,
) -> (c: Block)
    requires
        0 <= pos <= t.len(),
        next_block(t, pos) == Some(b),
    ensures
        ({
            let head = t.subrange(pos, b.open + 1);
            let u = front + head + rest;
            &&& next_block(u, front.len() as int) == Some(c)
            &&& c.name(u) == b.name(t)
            &&& c.open + 1 == (front + head).len()
        }),
{
    lemma_next_block(t, pos);
    let head = t.subrange(pos, b.open + 1);
    let u = front + head + rest;
    let j = front.len() as int;
    let w = b.name_end - pos;
    let m = b.open + 1 - pos;
    assert(agree(t, pos, u, j, m));
    assert(agree(t, pos, u, j, w));
    lemma_block_opens(t, pos, b);
    lemma_agree_behind(t, pos, u, j, m, w);
    lemma_space_end_moves(t, b.name_end, u, j + w, m - w);
    lemma_first(t, b.name_end, u, j + w, m - w);
    assert(t[pos + (m - 1)] == u[j + (m - 1)]);
    lemma_next_block_moves(t, pos, u, j, b);
    let c = Block { start: b.start - pos + j, name_end: j + w, open: j + m - 1 };
    assert forall|k: int| 0 <= k < b.name_end - b.start implies #[trigger] c.name(u)[k]
        == b.name(t)[k] by {
        assert(t[pos + (b.start - pos + k)] == u[j + (b.start - pos + k)]);
    }
    assert(c.name(u) =~= b.name(t));
    c
}

/// Behind any text, what emptying leaves is quiet.
proof fn lemma_emptied_is_quiet(t: Seq<char>, names: Seq<Seq<char>>, pos: int, front: Seq<char>)
    requires
        0 <= pos <= t.len(),
    ensures
        quiet(front + emptied(t, names, pos), names, front.len() as int),
    decreases t.len() - pos,
{
    let e = emptied(t, names, pos);
    lemma_next_block(t, pos);
    let found = next_block(t, pos);
    if found is None || matching_brace(t, found->0.open + 1, 1) is None {
        lemma_copied_is_quiet(t, names, pos, front);
    } else {
        let b = found->0;
        let close = matching_brace(t, b.open + 1, 1)->0;
        lemma_matching_brace(t, b.open + 1, 1);
        let body = t.subrange(b.open + 1, close);
        if names.contains(b.name(t)) && !blank(body) {
            let head = t.subrange(pos, b.name_end) + seq![' ', '{', '}'];
            let rest = emptied(t, names, close + 1);
            assert(front + e =~= front + head + rest);
            lemma_emptied_is_quiet(t, names, close + 1, front + head);
            lemma_emptied_block_is_quiet(t, names, pos, b, front, rest);
        } else {
            let head = t.subrange(pos, b.open + 1);
            let rest = emptied(t, names, b.open + 1);
            let u = front + head + rest;
            assert(front + e =~= u);
            lemma_emptied_is_quiet(t, names, b.open + 1, front + head);
            let c = lemma_kept_block_is_found(t, pos, b, front, rest);
            if names.contains(b.name(t)) {
                lemma_blank_body_stays(t, names, b.open + 1, close);
                let end = c.open + 1 + body.len();
                assert(rest == t.subrange(b.open + 1, close + 1) + emptied(t, names, close + 1));
                assert(u[end] == t[close]);
                assert(u.subrange(c.open + 1, end) =~= body);
                lemma_blank_body_closes(u, c.open + 1, end);
            }
        }
    }
}

proof fn lemma_block_opens(t: Seq<char>, i: int, b: Block)
    requires
        0 <= i,
        next_block(t, i) == Some(b),
    ensures
        space_end(t, b.name_end) == b.open,
        !in_name(t[b.name_end]),
    decreases t.len() - i,
{
    lemma_next_block(t, i);
    if opens_syntax(t, i) {
        lemma_syntax_end(t, i);
        lemma_block_opens(t, syntax_end(t, i), b);
    } else if starts_name(t[i]) {
        lemma_name_end(t, i + 1);
        let e = name_end(t, i + 1);
        lemma_space_end(t, e);
        let o = space_end(t, e);
        if !(o < t.len() && t[o] == '{') {
            lemma_block_opens(t, o, b);
        }
    } else {
        lemma_block_opens(t, i + 1, b);
    }
}

/// A quiet text stays as it is.
proof fn lemma_quiet_stays(t: Seq<char>, names: Seq<Seq<char>>, pos: int)
    requires
        0 <= pos <= t.len(),
        quiet(t, names, pos),
    ensures
        emptied(t, names, pos) == t.subrange(pos, t.len() as int),
    decreases t.len() - pos,
{
    lemma_next_block(t, pos);
    match next_block(t, pos) {
        None => {},
        Some(b) => match matching_brace(t, b.open + 1, 1) {
            None => {},
            Some(close) => {
                lemma_matching_brace(t, b.open + 1, 1);
                lemma_quiet_stays(t, names, b.open + 1);
                assert(t.subrange(pos, t.len() as int) =~= t.subrange(pos, b.open + 1)
                    + t.subrange(b.open + 1, t.len() as int));
            },
        },
    }
}

/// Emptying leaves nothing in the named blocks that are closed: a scan of the
/// result meets none of them with anything in it, and emptying once more changes
/// nothing.
pub proof fn law_emptying_is_complete(t: Seq<char>, names: Seq<Seq<char>>)
    ensures
        ({
            let e = emptied(t, names, 0);
            &&& quiet(e, names, 0)
            &&& emptied(e, names, 0) == e
        }),
{
    let e = emptied(t, names, 0);
    let none: Seq<char> = Seq::empty();
    lemma_emptied_is_quiet(t, names, 0, none);
    assert(none + e =~= e);
    lemma_quiet_stays(e, names, 0);
    assert(e.subrange(0, e.len() as int) =~= e);
}

/// Whether each block that a scan from `pos` on meets, going on behind it, is
/// closed.
pub open spec fn blocks_close(t: Seq<char>, pos: int) -> bool
    decreases t.len() - pos,
{
    if pos < 0 {
        true
    } else {
        match next_block(t, pos) {
            None => true,
            Some(b) => {
                proof {
                    lemma_next_block(t, pos);
                    lemma_matching_brace(t, b.open + 1, 1);
                }
                match matching_brace(t, b.open + 1, 1) {
                    None => false,
                    Some(close) => blocks_close(t, close + 1),
                }
            },
        }
    }
}

/// If `k + d` braces are closed at `close`, then the inner `k` are before, and the
/// outer `d` behind those.
proof fn lemma_inner_braces_close(t: Seq<char>, i: int, k: int, d: int, close: int)
    requires
        0 <= i,
        k >= 1,
        d >= 1,
        matching_brace(t, i, k + d) == Some(close),
    ensures
        matching_brace(t, i, k) matches Some(c) && i <= c < close && matching_brace(t, c + 1, d)
            == Some(close),
    decreases t.len() - i,
{
    lemma_matching_brace(t, i, k + d);
    if opens_syntax(t, i) {
        lemma_syntax_end(t, i);
        lemma_inner_braces_close(t, syntax_end(t, i), k, d, close);
    } else if t[i] == '{' {
        lemma_inner_braces_close(t, i + 1, k + 1, d, close);
    } else if t[i] == '}' {
        if k == 1 {
            lemma_matching_brace(t, i + 1, d);
        } else {
            lemma_inner_braces_close(t, i + 1, k - 1, d, close);
        }
    } else {
        lemma_inner_braces_close(t, i + 1, k, d, close);
    }
}

/// A brace that closes within what two texts have in common closes in both.
proof fn lemma_matching_brace_within(
    t: Seq<char>,
    i: int,
    u: Seq<char>,
    j: int,
    n: int,
    depth: int,
    c: int,
)
    requires
        agree(t, i, u, j, n),
        matching_brace(t, i, depth) == Some(c),
        c - i < n,
        i + n < t.len(),
    ensures
        matching_brace(u, j, depth) == Some(c - i + j),
    decreases n,
{
    lemma_matching_brace(t, i, depth);
    if opens_syntax(t, i) {
        lemma_syntax_end(t, i);
        let e = syntax_end(t, i);
        lemma_matching_brace(t, e, depth);
        lemma_syntax_end_moves(t, i, u, j, n);
        lemma_agree_behind(t, i, u, j, n, e - i);
        lemma_matching_brace_within(t, e, u, j + (e - i), n - (e - i), depth, c);
    } else {
        let d = if t[i] == '{' {
            depth + 1
        } else if t[i] == '}' {
            depth - 1
        } else {
            depth
        };
        if t[i] != '}' || depth > 1 {
            lemma_matching_brace(t, i + 1, d);
        }
        lemma_not_quoted_moves(t, i, u, j, n);
        lemma_agree_behind(t, i, u, j, n, 1);
        if t[i] != '}' || depth > 1 {
            lemma_matching_brace_within(t, i + 1, u, j + 1, n - 1, d, c);
        }
    }
}

/// The first block in a body that ends at `close` in `t`: in `t` its brace is one
/// of those that are closed at `close`.
proof fn lemma_block_in_body(t: Seq<char>, body: Seq<char>, i: int, j: int, d: int, close: int) -> (e:
    int)
    requires
        agree(t, i, body, j, close - i),
        j + (close - i) == body.len(),
        d >= 1,
        matching_brace(t, i, d) == Some(close),
        next_block(body, j) is Some,
    ensures
        e >= 1,
        matching_brace(t, next_block(body, j)->0.open - j + i + 1, e + 1) == Some(close),
    decreases t.len() - i,
{
    lemma_matching_brace(t, i, d);
    lemma_next_block(body, j);
    let n = close - i;
    let b = next_block(body, j)->0;
    if n == 0 {
        assert(j == body.len());
        return 1;
    }
    if opens_syntax(t, i) {
        lemma_syntax_end(t, i);
        let s = syntax_end(t, i);
        lemma_matching_brace(t, s, d);
        lemma_syntax_end_moves(t, i, body, j, n);
        lemma_agree_behind(t, i, body, j, n, s - i);
        lemma_block_in_body(t, body, s, j + (s - i), d, close)
    } else {
        lemma_first(t, i, body, j, n);
        if n == 1 {
            // What stands before the closing brace begins no comment.
            assert(!opens_quoted(body, j));
        } else {
            lemma_not_quoted_moves(t, i, body, j, n);
        }
        let after = if t[i] == '{' {
            d + 1
        } else if t[i] == '}' {
            d - 1
        } else {
            d
        };
        lemma_agree_behind(t, i, body, j, n, 1);
        lemma_matching_brace(t, i + 1, after);
        if starts_name(t[i]) {
            lemma_name_end(body, j + 1);
            let end = name_end(body, j + 1);
            lemma_space_end(body, end);
            let open = space_end(body, end);
            lemma_names_and_spaces_pass(t, body, i, j, n, open, d);
            let o = open - j + i;
            if open < body.len() && body[open] == '{' {
                lemma_agree_behind(t, i, body, j, n, open - j);
                lemma_first(t, o, body, open, n - (open - j));
                lemma_matching_brace(t, o, d);
                d
            } else {
                lemma_agree_behind(t, i, body, j, n, open - j);
                lemma_block_in_body(t, body, o, open, d, close)
            }
        } else {
            lemma_block_in_body(t, body, i + 1, j + 1, after, close)
        }
    }
}

/// Names and white space have no braces in them.
proof fn lemma_names_and_spaces_pass(
    t: Seq<char>,
    body: Seq<char>,
    i: int,
    j: int,
    n: int,
    open: int,
    d: int,
)
    requires
        agree(t, i, body, j, n),
        j <= open <= j + n,
        forall|k: int| j <= k < open ==> in_name(#[trigger] body[k]) || ascii_space(body[k]),
    ensures
        matching_brace(t, i, d) == matching_brace(t, open - j + i, d),
    decreases open - j,
{
    if j < open {
        lemma_first(t, i, body, j, n);
        assert(in_name(body[j]) || ascii_space(body[j]));
        lemma_agree_behind(t, i, body, j, n, 1);
        lemma_names_and_spaces_pass(t, body, i + 1, j + 1, n - 1, open, d);
    }
}

proof fn lemma_body_blocks_close(
    t: Seq<char>,
    body: Seq<char>,
    i: int,
    j: int,
    d: int,
    close: int,
)
    requires
        agree(t, i, body, j, close - i),
        j + (close - i) == body.len(),
        d >= 1,
        matching_brace(t, i, d) == Some(close),
    ensures
        blocks_close(body, j),
    decreases t.len() - i,
{
    lemma_matching_brace(t, i, d);
    lemma_next_block(body, j);
    if next_block(body, j) is Some {
        let b = next_block(body, j)->0;
        let e = lemma_block_in_body(t, body, i, j, d, close);
        let o = b.open - j + i;
        lemma_inner_braces_close(t, o + 1, 1, e, close);
        let c = matching_brace(t, o + 1, 1)->0;
        let n = close - i;
        lemma_agree_behind(t, i, body, j, n, b.open + 1 - j);
        lemma_matching_brace_within(t, o + 1, body, b.open + 1, close - (o + 1), 1, c);
        lemma_agree_behind(t, i, body, j, n, c + 1 - i);
        lemma_body_blocks_close(t, body, c + 1, c + 1 - i + j, e, close);
    }
}

/// In a block that is closed, every block that a scan meets is closed too: what is
/// left of it without some of its blocks has no part of it twice.
pub proof fn law_closed_blocks_hold_closed_blocks(t: Seq<char>, open: int, close: int)
    requires
        0 <= open,
        matching_brace(t, open + 1, 1) == Some(close),
    ensures
        blocks_close(t.subrange(open + 1, close), 0),
{
    lemma_matching_brace(t, open + 1, 1);
    let body = t.subrange(open + 1, close);
    assert(agree(t, open + 1, body, 0, close - open - 1));
    lemma_body_blocks_close(t, body, open + 1, 0, 1, close);
}

/// Where a scan goes on behind the first `k` of some blocks, given as where each begins,
/// where its name ends and where it ends.
pub open spec fn behind_blocks(all: Seq<(int, int, int)>, pos: int, k: int) -> int {
    if k <= 0 {
        pos
    } else {
        all[k - 1].2
    }
}

/// Whether a closed block is the first from `from` on.
pub open spec fn is_first_block(t: Seq<char>, from: int, b: (int, int, int)) -> bool {
    match next_block(t, from) {
        None => false,
        Some(f) => f.start == b.0 && f.name_end == b.1 && matching_brace(t, f.open + 1, 1) == Some(
            b.2 - 1,
        ),
    }
}

/// Whether these are the closed blocks that stand in no other block, from `pos` on.
pub open spec fn are_outer_blocks(t: Seq<char>, pos: int, all: Seq<(int, int, int)>) -> bool {
    &&& forall|k: int|
        0 <= k < all.len() ==> is_first_block(t, behind_blocks(all, pos, k), #[trigger] all[k])
    &&& forall|b: (int, int, int)|
        !is_first_block(t, behind_blocks(all, pos, all.len() as int), b)
}

/// The ranges of those blocks whose names are not listed.
pub open spec fn not_listed(
    t: Seq<char>,
    keep: Seq<Seq<char>>,
    all: Seq<(int, int, int)>,
) -> Seq<(int, int)>
    decreases all.len(),
{
    if all.len() == 0 {
        Seq::empty()
    } else if keep.contains(t.subrange(all[0].0, all[0].1)) {
        not_listed(t, keep, all.drop_first())
    } else {
        with_range(all[0].0, all[0].2, not_listed(t, keep, all.drop_first()))
    }
}

proof fn lemma_outer_front(
    t: Seq<char>,
    pos: int,
    b: (int, int, int),
    more: Seq<(int, int, int)>,
)
    requires
        is_first_block(t, pos, b),
        are_outer_blocks(t, b.2, more),
    ensures
        are_outer_blocks(t, pos, seq![b] + more),
{
    let all = seq![b] + more;
    assert forall|k: int| 0 <= k < all.len() implies is_first_block(
        t,
        behind_blocks(all, pos, k),
        #[trigger] all[k],
    ) by {
        if k > 0 {
            assert(all[k] == more[k - 1]);
            assert(behind_blocks(all, pos, k) == behind_blocks(more, b.2, k - 1));
        }
    }
    assert(behind_blocks(all, pos, all.len() as int) == behind_blocks(
        more,
        b.2,
        more.len() as int,
    ));
}

/// What is cut out of a text may be cut out from further back on.
proof fn lemma_spliced_from(t: Seq<char>, cuts: Seq<(int, int)>, pos: int, from: int)
    requires
        0 <= pos <= from <= t.len(),
        are_ranges(cuts, from, t.len() as int),
    ensures
        are_ranges(cuts, pos, t.len() as int),
        spliced(t, cuts, Seq::empty(), pos) == t.subrange(pos, from) + spliced(
            t,
            cuts,
            Seq::empty(),
            from,
        ),
{
    if cuts.len() > 0 {
        assert(from <= cuts[0].0 < cuts[0].1 <= t.len());
        assert(t.subrange(pos, cuts[0].0) =~= t.subrange(pos, from) + t.subrange(
            from,
            cuts[0].0,
        ));
    }
    assert(spliced(t, cuts, Seq::empty(), pos) =~= t.subrange(pos, from) + spliced(
        t,
        cuts,
        Seq::empty(),
        from,
    ));
}

/// From a text, exactly those of its outer blocks are cut out whose names are not
/// listed. All else stays where it stands.
pub proof fn law_blocks_not_listed_are_cut_out(
    t: Seq<char>,
    keep: Seq<Seq<char>>,
    pos: int,
) -> (all: Seq<(int, int, int)>)
    requires
        0 <= pos <= t.len(),
    ensures
        are_outer_blocks(t, pos, all),
        are_ranges(not_listed(t, keep, all), pos, t.len() as int),
        kept_blocks(t, keep, pos) == spliced(t, not_listed(t, keep, all), Seq::empty(), pos),
    decreases t.len() - pos,
{
    lemma_next_block(t, pos);
    let found = match next_block(t, pos) {
        None => None,
        Some(b) => matching_brace(t, b.open + 1, 1),
    };
    match found {
        None => {
            assert(kept_blocks(t, keep, pos) == t.subrange(pos, t.len() as int));
            Seq::empty()
        },
        Some(close) => {
            let f = next_block(t, pos)->0;
            lemma_matching_brace(t, f.open + 1, 1);
            let b = (f.start, f.name_end, close + 1);
            let more = law_blocks_not_listed_are_cut_out(t, keep, close + 1);
            let all = seq![b] + more;
            lemma_outer_front(t, pos, b, more);
            assert(all.drop_first() =~= more);
            let cuts = not_listed(t, keep, more);
            if keep.contains(f.name(t)) {
                lemma_spliced_from(t, cuts, pos, close + 1);
                assert(t.subrange(pos, close + 1) =~= t.subrange(pos, f.start) + t.subrange(
                    f.start,
                    close + 1,
                ));
            } else {
                lemma_with_range(f.start, close + 1, cuts, pos, t.len() as int);
            }
            all
        },
    }
}

} // verus!
