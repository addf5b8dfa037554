//! Scanning the game's object files, which hold named blocks in braces:
//!
//! ```text
//! client
//! {
//!     SoundEvents
//!     {
//!         animations = '[ { "name": "once" } ]'
//!     }
//! }
//! ```
//!
//! Braces inside strings, comments and arrays do not count.

use crate::text::{
    blank, char_range, chars_of, find_chars, find_from, index_of_char, is_blank, lemma_find_from,
    lemma_index_of_char, position_of_char, push_chars, same_chars,
};
use vstd::prelude::*;

verus! {

/// ASCII letters and the underscore.
pub open spec fn starts_name(c: char) -> bool {
    'a' <= c <= 'z' || 'A' <= c <= 'Z' || c == '_'
}

/// ASCII letters, digits and the underscore.
pub open spec fn in_name(c: char) -> bool {
    starts_name(c) || '0' <= c <= '9'
}

/// ASCII white space.
pub open spec fn ascii_space(c: char) -> bool {
    c == ' ' || c == '\t' || c == '\n' || c == '\r' || c == '\x0c'
}

pub fn is_name_start(c: char) -> (r: bool)
    ensures
        r == starts_name(c),
{
    ('a' <= c && c <= 'z') || ('A' <= c && c <= 'Z') || c == '_'
}

pub fn is_name_char(c: char) -> (r: bool)
    ensures
        r == in_name(c),
{
    is_name_start(c) || ('0' <= c && c <= '9')
}

pub fn is_ascii_space(c: char) -> (r: bool)
    ensures
        r == ascii_space(c),
{
    c == ' ' || c == '\t' || c == '\n' || c == '\r' || c == '\x0c'
}

/// Where the run of name characters that begins at `i` ends.
pub open spec fn name_end(t: Seq<char>, i: int) -> int
    decreases t.len() - i,
{
    if 0 <= i < t.len() && in_name(t[i]) {
        name_end(t, i + 1)
    } else {
        i
    }
}

/// Where the run of white space that begins at `i` ends.
pub open spec fn space_end(t: Seq<char>, i: int) -> int
    decreases t.len() - i,
{
    if 0 <= i < t.len() && ascii_space(t[i]) {
        space_end(t, i + 1)
    } else {
        i
    }
}

pub proof fn lemma_name_end(t: Seq<char>, i: int)
    requires
        0 <= i <= t.len(),
    ensures
        i <= name_end(t, i) <= t.len(),
        forall|k: int| i <= k < name_end(t, i) ==> in_name(#[trigger] t[k]),
        name_end(t, i) < t.len() ==> !in_name(t[name_end(t, i)]),
    decreases t.len() - i,
{
    if i < t.len() && in_name(t[i]) {
        lemma_name_end(t, i + 1);
    }
}

pub proof fn lemma_space_end(t: Seq<char>, i: int)
    requires
        0 <= i <= t.len(),
    ensures
        i <= space_end(t, i) <= t.len(),
        forall|k: int| i <= k < space_end(t, i) ==> ascii_space(#[trigger] t[k]),
        space_end(t, i) < t.len() ==> !ascii_space(t[space_end(t, i)]),
    decreases t.len() - i,
{
    if i < t.len() && ascii_space(t[i]) {
        lemma_space_end(t, i + 1);
    }
}

/// Where the run of name characters that begins at `i` ends.
pub fn skip_name(t: &[char], i: usize) -> (r: usize)
    requires
        i <= t@.len(),
    ensures
        r == name_end(t@, i as int),
        i <= r <= t@.len(),
{
    let n: usize = t.len();
    let mut j: usize = i;
    while j < n && is_name_char(t[j])
        invariant
            i <= j <= n == t@.len(),
            name_end(t@, i as int) == name_end(t@, j as int),
        decreases n - j,
    {
        j = j + 1;
    }
    j
}

/// Where the run of white space that begins at `i` ends.
pub fn skip_space(t: &[char], i: usize) -> (r: usize)
    requires
        i <= t@.len(),
    ensures
        r == space_end(t@, i as int),
        i <= r <= t@.len(),
{
    let n: usize = t.len();
    let mut j: usize = i;
    while j < n && is_ascii_space(t[j])
        invariant
            i <= j <= n == t@.len(),
            space_end(t@, i as int) == space_end(t@, j as int),
        decreases n - j,
    {
        j = j + 1;
    }
    j
}

/// Whether a string or a comment begins at `i`.
pub open spec fn opens_quoted(t: Seq<char>, i: int) -> bool {
    &&& 0 <= i < t.len()
    &&& t[i] == '"' || (t[i] == '/' && i + 1 < t.len() && (t[i + 1] == '/' || t[i + 1] == '*'))
}

/// Whether a string, a comment or an array begins at `i`.
pub open spec fn opens_syntax(t: Seq<char>, i: int) -> bool {
    opens_quoted(t, i) || (0 <= i < t.len() && t[i] == '[')
}

/// Where the string ends whose text goes on at `j`: behind its closing quote, or
/// at the end of the text. A backslash hides the character behind it.
pub open spec fn string_end(t: Seq<char>, j: int) -> int
    decreases t.len() - j,
{
    if j < 0 || j >= t.len() {
        t.len() as int
    } else if t[j] == '\\' && j + 1 < t.len() {
        string_end(t, j + 2)
    } else if t[j] == '"' {
        j + 1
    } else {
        string_end(t, j + 1)
    }
}

/// Where the string or comment at `i` ends.
pub open spec fn quoted_end(t: Seq<char>, i: int) -> int {
    if t[i] == '"' {
        string_end(t, i + 1)
    } else if t[i + 1] == '/' {
        let p = index_of_char(t, '\n', i + 2);
        if p < t.len() {
            p + 1
        } else {
            t.len() as int
        }
    } else {
        match find_from(t, seq!['*', '/'], i + 2) {
            Some(p) => p + 2,
            None => t.len() as int,
        }
    }
}

pub proof fn lemma_string_end(t: Seq<char>, j: int)
    requires
        0 <= j <= t.len(),
    ensures
        j <= string_end(t, j) <= t.len(),
    decreases t.len() - j,
{
    if j < t.len() {
        if t[j] == '\\' && j + 1 < t.len() {
            lemma_string_end(t, j + 2);
        } else if t[j] != '"' {
            lemma_string_end(t, j + 1);
        }
    }
}

pub proof fn lemma_quoted_end(t: Seq<char>, i: int)
    requires
        opens_quoted(t, i),
    ensures
        i < quoted_end(t, i) <= t.len(),
{
    if t[i] == '"' {
        lemma_string_end(t, i + 1);
    } else if t[i + 1] == '/' {
        lemma_index_of_char(t, '\n', i + 2);
    } else {
        lemma_find_from(t, seq!['*', '/'], i + 2);
    }
}

/// Where the array ends whose text goes on at `j`, with `depth` brackets open.
pub open spec fn array_end(t: Seq<char>, j: int, depth: int) -> int
    decreases t.len() - j,
{
    if j < 0 || j >= t.len() || depth <= 0 {
        j
    } else if opens_quoted(t, j) {
        proof {
            lemma_quoted_end(t, j);
        }
        array_end(t, quoted_end(t, j), depth)
    } else if t[j] == '[' {
        array_end(t, j + 1, depth + 1)
    } else if t[j] == ']' {
        array_end(t, j + 1, depth - 1)
    } else {
        array_end(t, j + 1, depth)
    }
}

/// Where what stands at `i` ends: a string, a comment, an array, or else one
/// character.
pub open spec fn syntax_end(t: Seq<char>, i: int) -> int {
    if opens_quoted(t, i) {
        quoted_end(t, i)
    } else if t[i] == '[' {
        array_end(t, i + 1, 1)
    } else {
        i + 1
    }
}

pub proof fn lemma_array_end(t: Seq<char>, j: int, depth: int)
    requires
        0 <= j <= t.len(),
    ensures
        j <= array_end(t, j, depth) <= t.len(),
    decreases t.len() - j,
{
    if j < t.len() && depth > 0 {
        if opens_quoted(t, j) {
            lemma_quoted_end(t, j);
            lemma_array_end(t, quoted_end(t, j), depth);
        } else if t[j] == '[' {
            lemma_array_end(t, j + 1, depth + 1);
        } else if t[j] == ']' {
            lemma_array_end(t, j + 1, depth - 1);
        } else {
            lemma_array_end(t, j + 1, depth);
        }
    }
}

pub proof fn lemma_syntax_end(t: Seq<char>, i: int)
    requires
        0 <= i < t.len(),
    ensures
        i < syntax_end(t, i) <= t.len(),
{
    if opens_quoted(t, i) {
        lemma_quoted_end(t, i);
    } else if t[i] == '[' {
        lemma_array_end(t, i + 1, 1);
    }
}

fn is_quoted(t: &[char], i: usize) -> (r: bool)
    requires
        i < t@.len(),
    ensures
        r == opens_quoted(t@, i as int),
{
    let total: usize = t.len();
    t[i] == '"' || (t[i] == '/' && i < total - 1 && (t[i + 1] == '/' || t[i + 1] == '*'))
}

fn is_syntax(t: &[char], i: usize) -> (r: bool)
    requires
        i < t@.len(),
    ensures
        r == opens_syntax(t@, i as int),
{
    t[i] == '[' || is_quoted(t, i)
}

fn skip_string(t: &[char], start: usize) -> (r: usize)
    requires
        start <= t@.len(),
    ensures
        r == string_end(t@, start as int),
{
    let n: usize = t.len();
    let mut j: usize = start;
    while j < n
        invariant
            j <= n == t@.len(),
            string_end(t@, start as int) == string_end(t@, j as int),
        decreases n - j,
    {
        if t[j] == '\\' && j < n - 1 {
            j = j + 2;
        } else if t[j] == '"' {
            return j + 1;
        } else {
            j = j + 1;
        }
    }
    n
}

fn skip_quoted(t: &[char], i: usize) -> (r: usize)
    requires
        opens_quoted(t@, i as int),
    ensures
        r == quoted_end(t@, i as int),
        i < r <= t@.len(),
{
    proof {
        lemma_quoted_end(t@, i as int);
    }
    let n: usize = t.len();
    if t[i] == '"' {
        return skip_string(t, i + 1);
    }
    if t[i + 1] == '/' {
        let p: usize = position_of_char(t, '\n', i + 2);
        return if p < n {
            p + 1
        } else {
            n
        };
    }
    let mut close: Vec<char> = Vec::new();
    close.push('*');
    close.push('/');
    assert(close@ =~= seq!['*', '/']);
    match find_chars(t, close.as_slice(), i + 2) {
        Some(p) => p + 2,
        None => n,
    }
}

/// Where what stands at `i` ends: a string, a comment, an array, or else one
/// character.
pub fn skip_syntax(t: &[char], i: usize) -> (r: usize)
    requires
        i < t@.len(),
    ensures
        r == syntax_end(t@, i as int),
        i < r <= t@.len(),
{
    proof {
        lemma_syntax_end(t@, i as int);
    }
    let n: usize = t.len();
    if is_quoted(t, i) {
        return skip_quoted(t, i);
    }
    if t[i] != '[' {
        return i + 1;
    }
    let mut depth: usize = 1;
    let mut j: usize = i + 1;
    while j < n && depth > 0
        invariant
            i < j <= n == t@.len(),
            depth <= j,
            array_end(t@, i + 1, 1) == array_end(t@, j as int, depth as int),
        decreases n - j,
    {
        if is_quoted(t, j) {
            j = skip_quoted(t, j);
        } else {
            if t[j] == '[' {
                depth = depth + 1;
            } else if t[j] == ']' {
                depth = depth - 1;
            }
            j = j + 1;
        }
    }
    j
}

/// Where the brace stands that closes the block whose text goes on at `i`, with
/// `depth` braces open.
pub open spec fn matching_brace(t: Seq<char>, i: int, depth: int) -> Option<int>
    decreases t.len() - i,
{
    if i < 0 || i >= t.len() {
        None
    } else if opens_syntax(t, i) {
        proof {
            lemma_syntax_end(t, i);
        }
        matching_brace(t, syntax_end(t, i), depth)
    } else if t[i] == '{' {
        matching_brace(t, i + 1, depth + 1)
    } else if t[i] == '}' {
        if depth <= 1 {
            Some(i)
        } else {
            matching_brace(t, i + 1, depth - 1)
        }
    } else {
        matching_brace(t, i + 1, depth)
    }
}

pub proof fn lemma_matching_brace(t: Seq<char>, i: int, depth: int)
    requires
        0 <= i,
    ensures
        matching_brace(t, i, depth) matches Some(c) ==> i <= c < t.len() && t[c] == '}',
    decreases t.len() - i,
{
    if i < t.len() {
        if opens_syntax(t, i) {
            lemma_syntax_end(t, i);
            lemma_matching_brace(t, syntax_end(t, i), depth);
        } else if t[i] == '{' {
            lemma_matching_brace(t, i + 1, depth + 1);
        } else if t[i] == '}' {
            lemma_matching_brace(t, i + 1, depth - 1);
        } else {
            lemma_matching_brace(t, i + 1, depth);
        }
    }
}

/// Where the brace stands that closes the one at `open`.
pub fn find_matching_brace(t: &[char], open: usize) -> (r: Option<usize>)
    requires
        open < t@.len(),
    ensures
        match r {
            Some(c) => matching_brace(t@, open + 1, 1) == Some(c as int) && open < c < t@.len(),
            None => matching_brace(t@, open + 1, 1) is None,
        },
{
    let n: usize = t.len();
    let mut depth: usize = 1;
    let mut i: usize = open + 1;
    while i < n
        invariant
            open < i <= n == t@.len(),
            1 <= depth <= i,
            matching_brace(t@, open + 1, 1) == matching_brace(t@, i as int, depth as int),
        decreases n - i,
    {
        if is_syntax(t, i) {
            i = skip_syntax(t, i);
        } else {
            if t[i] == '{' {
                depth = depth + 1;
            } else if t[i] == '}' {
                if depth == 1 {
                    return Some(i);
                }
                depth = depth - 1;
            }
            i = i + 1;
        }
    }
    None
}

/// A block: where its name begins and ends, and where its brace opens.
pub struct Block {
    pub start: int,
    pub name_end: int,
    pub open: int,
}

impl Block {
    pub open spec fn name(self, t: Seq<char>) -> Seq<char> {
        t.subrange(self.start, self.name_end)
    }
}

/// The first block from `i` on, at any depth: a name and, behind white space, an
/// opening brace.
pub open spec fn next_block(t: Seq<char>, i: int) -> Option<Block>
    decreases t.len() - i,
{
    if i < 0 || i >= t.len() {
        None
    } else if opens_syntax(t, i) {
        proof {
            lemma_syntax_end(t, i);
        }
        next_block(t, syntax_end(t, i))
    } else if starts_name(t[i]) {
        let end = name_end(t, i + 1);
        let open = space_end(t, end);
        if open < t.len() && t[open] == '{' {
            Some(Block { start: i, name_end: end, open })
        } else {
            proof {
                lemma_name_end(t, i + 1);
                lemma_space_end(t, end);
            }
            next_block(t, open)
        }
    } else {
        next_block(t, i + 1)
    }
}

pub proof fn lemma_next_block(t: Seq<char>, i: int)
    requires
        0 <= i,
    ensures
        next_block(t, i) matches Some(b) ==> {
            &&& i <= b.start < b.name_end <= b.open < t.len()
            &&& t[b.open] == '{'
            &&& starts_name(t[b.start])
        },
    decreases t.len() - i,
{
    if i < t.len() {
        if opens_syntax(t, i) {
            lemma_syntax_end(t, i);
            lemma_next_block(t, syntax_end(t, i));
        } else if starts_name(t[i]) {
            lemma_name_end(t, i + 1);
            lemma_space_end(t, name_end(t, i + 1));
            lemma_next_block(t, space_end(t, name_end(t, i + 1)));
        } else {
            lemma_next_block(t, i + 1);
        }
    }
}

/// The place of a block: where its name begins, where it ends, and where the
/// brace opens.
#[derive(Debug, Clone, Copy, PartialEq, Eq, Structural)]
pub struct BlockPlace {
    pub start: usize,
    pub name_end: usize,
    pub open: usize,
}

impl View for BlockPlace {
    type V = Block;

    open spec fn view(&self) -> Block {
        Block {
            start: self.start as int,
            name_end: self.name_end as int,
            open: self.open as int,
        }
    }
}

/// The first block from `from` on, at any depth.
pub fn find_next_sub_block(t: &[char], from: usize) -> (r: Option<BlockPlace>)
    ensures
        match r {
            Some(b) => {
                &&& next_block(t@, from as int) == Some(b@)
                &&& from <= b.start < b.name_end <= b.open < t@.len()
            },
            None => next_block(t@, from as int) is None,
        },
{
    let n: usize = t.len();
    let mut i: usize = from;
    while i < n
        invariant
            n == t@.len(),
            from <= i,
            next_block(t@, from as int) == next_block(t@, i as int),
        decreases n - i,
    {
        if is_syntax(t, i) {
            i = skip_syntax(t, i);
        } else if is_name_start(t[i]) {
            let end: usize = skip_name(t, i + 1);
            let open: usize = skip_space(t, end);
            if open < n && t[open] == '{' {
                return Some(BlockPlace { start: i, name_end: end, open });
            }
            i = open;
        } else {
            i = i + 1;
        }
    }
    None
}

/// Where the block `name` opens, among the blocks from `pos` on that stand in no
/// other block.
pub open spec fn top_level_block(t: Seq<char>, name: Seq<char>, pos: int) -> Option<int>
    decreases t.len() - pos,
{
    if pos < 0 {
        None
    } else {
        match next_block(t, pos) {
            None => None,
            Some(b) => if b.name(t) == name {
                Some(b.open)
            } else {
                proof {
                    lemma_next_block(t, pos);
                    lemma_matching_brace(t, b.open + 1, 1);
                }
                match matching_brace(t, b.open + 1, 1) {
                    None => None,
                    Some(close) => top_level_block(t, name, close + 1),
                }
            },
        }
    }
}

/// Where the block `name` opens, among those that stand in no other block.
pub fn find_top_level_block(t: &[char], name: &[char]) -> (r: Option<usize>)
    ensures
        match r {
            Some(open) => top_level_block(t@, name@, 0) == Some(open as int) && open < t@.len(),
            None => top_level_block(t@, name@, 0) is None,
        },
{
    let total: usize = t.len();
    let mut pos: usize = 0;
    loop
        invariant
            pos <= total == t@.len(),
            top_level_block(t@, name@, 0) == top_level_block(t@, name@, pos as int),
        decreases total - pos,
    {
        match find_next_sub_block(t, pos) {
            None => return None,
            Some(b) => {
                let block_name = char_range(t, b.start, b.name_end);
                if same_chars(block_name.as_slice(), name) {
                    return Some(b.open);
                }
                match find_matching_brace(t, b.open) {
                    None => return None,
                    Some(close) => {
                        pos = close + 1;
                    },
                }
            },
        }
    }
}

pub open spec fn str_views(names: Seq<&str>) -> Seq<Seq<char>> {
    names.map_values(|s: &str| s@)
}

/// Whether one of the names is `name`.
fn is_listed(names: &[&str], name: &[char]) -> (r: bool)
    ensures
        r == str_views(names@).contains(name@),
{
    let n: usize = names.len();
    let mut i: usize = 0;
    while i < n
        invariant
            i <= n == names@.len(),
            forall|k: int| 0 <= k < i ==> #[trigger] str_views(names@)[k] != name@,
        decreases n - i,
    {
        assert(str_views(names@)[i as int] == names@[i as int]@);
        let one = chars_of(names[i]);
        if same_chars(one.as_slice(), name) {
            return true;
        }
        i = i + 1;
    }
    false
}

/// The text from `pos` on without those blocks that are not to be kept. What
/// stands from a block on that is not closed stays.
pub open spec fn kept_blocks(body: Seq<char>, keep: Seq<Seq<char>>, pos: int) -> Seq<char>
    decreases body.len() - pos,
{
    let rest = body.subrange(pos, body.len() as int);
    if pos < 0 {
        rest
    } else {
        match next_block(body, pos) {
            None => rest,
            Some(b) => {
                proof {
                    lemma_next_block(body, pos);
                    lemma_matching_brace(body, b.open + 1, 1);
                }
                match matching_brace(body, b.open + 1, 1) {
                    None => rest,
                    Some(close) => {
                        let kept = if keep.contains(b.name(body)) {
                            body.subrange(b.start, close + 1)
                        } else {
                            Seq::empty()
                        };
                        body.subrange(pos, b.start) + kept + kept_blocks(body, keep, close + 1)
                    },
                }
            },
        }
    }
}

/// The text with those blocks of its `client` block taken out that are not to be
/// kept.
pub open spec fn client_stripped(t: Seq<char>, keep: Seq<Seq<char>>) -> Seq<char> {
    match top_level_block(t, "client"@, 0) {
        None => t,
        Some(open) => match matching_brace(t, open + 1, 1) {
            None => t,
            Some(close) => t.subrange(0, open + 1) + kept_blocks(
                t.subrange(open + 1, close),
                keep,
                0,
            ) + t.subrange(close, t.len() as int),
        },
    }
}

fn keep_blocks(body: &[char], keep: &[&str]) -> (r: Vec<char>)
    ensures
        r@ == kept_blocks(body@, str_views(keep@), 0),
{
    let n: usize = body.len();
    let mut out: Vec<char> = Vec::new();
    let mut pos: usize = 0;
    assert(out@ + kept_blocks(body@, str_views(keep@), 0) =~= kept_blocks(
        body@,
        str_views(keep@),
        0,
    ));
    loop
        invariant
            pos <= n == body@.len(),
            kept_blocks(body@, str_views(keep@), 0) == out@ + kept_blocks(
                body@,
                str_views(keep@),
                pos as int,
            ),
        decreases n - pos,
    {
        match find_next_sub_block(body, pos) {
            None => {
                let rest = char_range(body, pos, n);
                push_chars(&mut out, rest.as_slice());
                return out;
            },
            Some(b) => match find_matching_brace(body, b.open) {
                None => {
                    let rest = char_range(body, pos, n);
                    push_chars(&mut out, rest.as_slice());
                    return out;
                },
                Some(close) => {
                    let name = char_range(body, b.start, b.name_end);
                    let front = char_range(body, pos, b.start);
                    push_chars(&mut out, front.as_slice());
                    if is_listed(keep, name.as_slice()) {
                        let block = char_range(body, b.start, close + 1);
                        push_chars(&mut out, block.as_slice());
                    }
                    pos = close + 1;
                    assert(kept_blocks(body@, str_views(keep@), 0) =~= out@ + kept_blocks(
                        body@,
                        str_views(keep@),
                        pos as int,
                    ));
                },
            },
        }
    }
}

/// Takes those blocks out of the `client` block that are not to be kept.
pub fn strip_client_blocks(t: &[char], keep: &[&str]) -> (r: Vec<char>)
    ensures
        r@ == client_stripped(t@, str_views(keep@)),
{
    let n: usize = t.len();
    let client = chars_of("client");
    let open: usize = match find_top_level_block(t, client.as_slice()) {
        Some(open) => open,
        None => return char_range(t, 0, n),
    };
    let close: usize = match find_matching_brace(t, open) {
        Some(close) => close,
        None => return char_range(t, 0, n),
    };
    let body = char_range(t, open + 1, close);
    let kept = keep_blocks(body.as_slice(), keep);
    let mut out = char_range(t, 0, open + 1);
    push_chars(&mut out, kept.as_slice());
    let tail = char_range(t, close, n);
    push_chars(&mut out, tail.as_slice());
    out
}

/// The text from `pos` on with the bodies of the named blocks emptied. Blocks
/// with nothing but white space in them stay as they are.
pub open spec fn emptied(t: Seq<char>, names: Seq<Seq<char>>, pos: int) -> Seq<char>
    decreases t.len() - pos,
{
    let rest = t.subrange(pos, t.len() as int);
    if pos < 0 {
        rest
    } else {
        match next_block(t, pos) {
            None => rest,
            Some(b) => {
                proof {
                    lemma_next_block(t, pos);
                    lemma_matching_brace(t, b.open + 1, 1);
                }
                match matching_brace(t, b.open + 1, 1) {
                    None => rest,
                    Some(close) => if names.contains(b.name(t)) && !blank(
                        t.subrange(b.open + 1, close),
                    ) {
                        t.subrange(pos, b.name_end) + seq![' ', '{', '}'] + emptied(
                            t,
                            names,
                            close + 1,
                        )
                    } else {
                        t.subrange(pos, b.open + 1) + emptied(t, names, b.open + 1)
                    },
                }
            },
        }
    }
}

/// Empties the bodies of the named blocks, at any depth. All else stays.
pub fn empty_named_blocks(t: &[char], names: &[&str]) -> (r: Vec<char>)
    ensures
        r@ == emptied(t@, str_views(names@), 0),
{
    let n: usize = t.len();
    let mut out: Vec<char> = Vec::new();
    let mut pos: usize = 0;
    assert(out@ + emptied(t@, str_views(names@), 0) =~= emptied(t@, str_views(names@), 0));
    loop
        invariant
            pos <= n == t@.len(),
            emptied(t@, str_views(names@), 0) == out@ + emptied(
                t@,
                str_views(names@),
                pos as int,
            ),
        decreases n - pos,
    {
        let found = match find_next_sub_block(t, pos) {
            None => None,
            Some(b) => match find_matching_brace(t, b.open) {
                None => None,
                Some(close) => Some((b, close)),
            },
        };
        match found {
            None => {
                let rest = char_range(t, pos, n);
                push_chars(&mut out, rest.as_slice());
                return out;
            },
            Some((b, close)) => {
                let name = char_range(t, b.start, b.name_end);
                let inner = char_range(t, b.open + 1, close);
                if is_listed(names, name.as_slice()) && !is_blank(inner.as_slice()) {
                    let front = char_range(t, pos, b.name_end);
                    push_chars(&mut out, front.as_slice());
                    out.push(' ');
                    out.push('{');
                    out.push('}');
                    pos = close + 1;
                } else {
                    let front = char_range(t, pos, b.open + 1);
                    push_chars(&mut out, front.as_slice());
                    pos = b.open + 1;
                }
                assert(emptied(t@, str_views(names@), 0) =~= out@ + emptied(
                    t@,
                    str_views(names@),
                    pos as int,
                ));
            },
        }
    }
}

} // verus!
