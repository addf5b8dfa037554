//! What taking calls out of a script does.

use crate::blocks::{lemma_space_end, space_end};
use crate::edits::{
    call_end, call_start, calls_removed, closed_at, in_call_name, lemma_call_end,
    lemma_closed_at,
};
use crate::splices::{are_ranges, in_ranges, lemma_with_range, spliced, with_range};
use crate::patches::{same_name, PatchId};
use crate::text::{contains_text, find_from, lemma_find_from, occurs_at};
use crate::transforms::{
    camera_functions, has_one_of, law_utf16_file_reads_back, lemma_without_marks, transformed,
    utf16_file_text, without_calls, without_marks, TransformError,
};
use crate::utf16::{byte_units, utf16_text};
use vstd::prelude::*;

verus! {

/// How many more of `open` than of `close` stand from `a` up to `b`.
pub open spec fn balance(t: Seq<char>, open: char, close: char, a: int, b: int) -> int
    decreases b - a,
{
    if b <= a {
        0
    } else {
        balance(t, open, close, a, b - 1) + if t[b - 1] == open {
            1int
        } else if t[b - 1] == close {
            -1
        } else {
            0
        }
    }
}

/// Whether a list in brackets stands from `p` up to `q`: one that is open from its
/// first bracket to its last.
pub open spec fn is_list(t: Seq<char>, open: char, close: char, p: int, q: int) -> bool {
    &&& 0 <= p < q <= t.len()
    &&& t[p] == open
    &&& balance(t, open, close, p, q) == 0
    &&& forall|m: int| p < m < q ==> #[trigger] balance(t, open, close, p, m) > 0
}

/// White space, as scripts have it.
pub open spec fn is_white(c: char) -> bool {
    c == ' ' || c == '\t' || c == '\n' || c == '\r' || c == '\u{c}'
}

/// Whether only white space stands from `a` up to `b`.
pub open spec fn all_white(t: Seq<char>, a: int, b: int) -> bool {
    &&& 0 <= a <= b <= t.len()
    &&& forall|k: int| a <= k < b ==> is_white(#[trigger] t[k])
}

/// What the name of a function is made of, and that of what it is called on.
pub open spec fn is_of_name(c: char) -> bool {
    ||| 'a' <= c <= 'z'
    ||| 'A' <= c <= 'Z'
    ||| '0' <= c <= '9'
    ||| c == '_'
    ||| c == '.'
}

/// Whether a call of `func` stands from `i` up to `e`: the name, the arguments from
/// `p` to `q`, a semicolon, with white space between them.
pub open spec fn is_call_with(
    t: Seq<char>,
    func: Seq<char>,
    i: int,
    p: int,
    q: int,
    e: int,
) -> bool {
    &&& occurs_at(t, i, func)
    &&& all_white(t, i + func.len(), p)
    &&& is_list(t, '(', ')', p, q)
    &&& all_white(t, q, e - 1)
    &&& e <= t.len()
    &&& t[e - 1] == ';'
}

/// Whether a call of `func` stands from `i` up to `e`.
pub open spec fn is_call(t: Seq<char>, func: Seq<char>, i: int, e: int) -> bool {
    exists|p: int, q: int| #[trigger] is_call_with(t, func, i, p, q, e)
}

/// Whether the call of `func` at `i` stands, with all of the name that it ends, from
/// `a` up to `e`.
pub open spec fn is_statement(t: Seq<char>, func: Seq<char>, a: int, i: int, e: int) -> bool {
    &&& 0 <= a <= i
    &&& is_call(t, func, i, e)
    &&& forall|k: int| a <= k < i ==> is_of_name(#[trigger] t[k])
    &&& a == 0 || !is_of_name(t[a - 1])
}

/// Whether a statement that calls `func` stands from `a` up to `e`.
pub open spec fn calls_it(t: Seq<char>, func: Seq<char>, a: int, e: int) -> bool {
    exists|i: int| is_statement(t, func, a, i, e)
}

/// Whether the ranges are statements that call `func`.
pub open spec fn are_statements(t: Seq<char>, func: Seq<char>, cuts: Seq<(int, int)>) -> bool {
    forall|k: int| 0 <= k < cuts.len() ==> calls_it(t, func, (#[trigger] cuts[k]).0, cuts[k].1)
}

/// Whether each call of `func` that begins at `from` or behind begins in one of the
/// ranges.
#[verifier::opaque]
pub open spec fn cover_calls(
    t: Seq<char>,
    func: Seq<char>,
    cuts: Seq<(int, int)>,
    from: int,
) -> bool {
    forall|i: int, e: int| from <= i && #[trigger] is_call(t, func, i, e) ==> in_ranges(cuts, i)
}

/// Whether a list that opens at `p` is still open at `i`.
spec fn is_open(t: Seq<char>, open: char, close: char, p: int, i: int) -> bool {
    &&& 0 <= p < i <= t.len()
    &&& t[p] == open
    &&& forall|m: int| p < m <= i ==> #[trigger] balance(t, open, close, p, m) > 0
}

proof fn lemma_closes(t: Seq<char>, open: char, close: char, p: int, i: int)
    requires
        open != close,
        is_open(t, open, close, p, i),
    ensures
        match closed_at(t, open, close, i, balance(t, open, close, p, i)) {
            Some(e) => i < e && is_list(t, open, close, p, e),
            None => is_open(t, open, close, p, t.len() as int),
        },
    decreases t.len() - i,
{
    let d = balance(t, open, close, p, i);
    if i < t.len() {
        assert(balance(t, open, close, p, i + 1) == d + if t[i] == open {
            1int
        } else if t[i] == close {
            -1
        } else {
            0
        });
        if t[i] == close && d <= 1 {
            assert(d == 1);
        } else {
            lemma_closes(t, open, close, p, i + 1);
        }
    }
}

/// A list ends where the count of its brackets says.
pub proof fn lemma_list_closes(t: Seq<char>, open: char, close: char, p: int)
    requires
        open != close,
        0 <= p < t.len(),
        t[p] == open,
    ensures
        closed_at(t, open, close, p + 1, 1) matches Some(e) ==> is_list(t, open, close, p, e),
        forall|q: int| #[trigger]
            is_list(t, open, close, p, q) ==> closed_at(t, open, close, p + 1, 1) == Some(q),
{
    assert(balance(t, open, close, p, p) == 0);
    assert(balance(t, open, close, p, p + 1) == 1);
    lemma_closes(t, open, close, p, p + 1);
    assert forall|q: int| #[trigger] is_list(t, open, close, p, q) implies closed_at(
        t,
        open,
        close,
        p + 1,
        1,
    ) == Some(q) by {
        match closed_at(t, open, close, p + 1, 1) {
            None => {
                assert(balance(t, open, close, p, q) > 0);
            },
            Some(e) => {
                if e < q {
                    assert(balance(t, open, close, p, e) > 0);
                } else if q < e {
                    assert(balance(t, open, close, p, q) > 0);
                }
            },
        }
    }
}

proof fn lemma_white_to(t: Seq<char>, i: int, j: int)
    requires
        all_white(t, i, j),
        j < t.len() ==> !is_white(t[j]),
    ensures
        space_end(t, i) == j,
    decreases j - i,
{
    if i < j {
        lemma_white_to(t, i + 1, j);
    }
}

/// The end of a call.
proof fn lemma_call(t: Seq<char>, func: Seq<char>, i: int)
    requires
        occurs_at(t, i, func),
    ensures
        call_end(t, func, i) matches Some(e) ==> is_call(t, func, i, e),
        forall|e: int| #[trigger] is_call(t, func, i, e) ==> call_end(t, func, i) == Some(e),
{
    let n = (i + func.len()) as int;
    lemma_space_end(t, n);
    let p = space_end(t, n);
    assert(all_white(t, n, p));
    if p < t.len() && t[p] == '(' {
        lemma_list_closes(t, '(', ')', p);
        lemma_closed_at(t, '(', ')', p + 1, 1);
        if let Some(q) = closed_at(t, '(', ')', p + 1, 1) {
            lemma_space_end(t, q);
            let end = space_end(t, q);
            if end < t.len() && t[end] == ';' {
                assert(is_call_with(t, func, i, p, q, end + 1));
            }
        }
    }
    assert forall|e: int| #[trigger] is_call(t, func, i, e) implies call_end(t, func, i)
        == Some(e) by {
        let (p1, q1) = choose|p1: int, q1: int| #[trigger] is_call_with(t, func, i, p1, q1, e);
        lemma_white_to(t, n, p1);
        assert(p1 == p);
        assert(is_list(t, '(', ')', p, q1));
        lemma_white_to(t, q1, e - 1);
    }
}

proof fn lemma_start(t: Seq<char>, i: int)
    requires
        0 <= i <= t.len(),
    ensures
        0 <= call_start(t, i) <= i,
        forall|k: int| call_start(t, i) <= k < i ==> is_of_name(#[trigger] t[k]),
        call_start(t, i) == 0 || !is_of_name(t[call_start(t, i) - 1]),
    decreases i,
{
    if i > 0 && in_call_name(t[i - 1]) {
        lemma_start(t, i - 1);
    }
}

/// Whether `c` holds from `k + d` on what `t` holds from `k` on.
spec fn moved(t: Seq<char>, c: Seq<char>, k: int, d: int) -> bool {
    &&& 0 <= k <= t.len()
    &&& 0 <= k + d
    &&& c.len() == t.len() + d
    &&& forall|j: int| k <= j < t.len() ==> #[trigger] t[j] == c[j + d]
}

proof fn lemma_balance_moves(t: Seq<char>, c: Seq<char>, k: int, d: int, open: char, close: char, a: int, b: int)
    requires
        moved(t, c, k, d),
        k <= a,
        b <= t.len(),
    ensures
        balance(t, open, close, a, b) == balance(c, open, close, a + d, b + d),
    decreases b - a,
{
    if a < b {
        lemma_balance_moves(t, c, k, d, open, close, a, b - 1);
        assert(t[b - 1] == c[b - 1 + d]);
    }
}

proof fn lemma_occurs_moves(t: Seq<char>, c: Seq<char>, k: int, d: int, p: Seq<char>, i: int)
    requires
        moved(t, c, k, d),
        k <= i,
    ensures
        occurs_at(t, i, p) == occurs_at(c, i + d, p),
{
    if i + p.len() <= t.len() {
        assert(t.subrange(i, i + p.len()) =~= c.subrange(i + d, i + d + p.len()));
    }
}

proof fn lemma_moved_back(t: Seq<char>, c: Seq<char>, k: int, d: int)
    requires
        moved(t, c, k, d),
    ensures
        moved(c, t, k + d, -d),
{
    assert forall|j: int| k + d <= j < c.len() implies #[trigger] c[j] == t[j - d] by {
        assert(t[j - d] == c[(j - d) + d]);
    }
}

proof fn lemma_call_moves(t: Seq<char>, c: Seq<char>, k: int, d: int, func: Seq<char>, i: int, e: int)
    requires
        moved(t, c, k, d),
        k <= i,
        is_call(t, func, i, e),
    ensures
        is_call(c, func, i + d, e + d),
{
    let (p, q) = choose|p: int, q: int| #[trigger] is_call_with(t, func, i, p, q, e);
    lemma_occurs_moves(t, c, k, d, func, i);
    assert forall|j: int| i + func.len() + d <= j < p + d implies is_white(#[trigger] c[j]) by {
        assert(t[j - d] == c[(j - d) + d]);
    }
    assert forall|j: int| q + d <= j < e - 1 + d implies is_white(#[trigger] c[j]) by {
        assert(t[j - d] == c[(j - d) + d]);
    }
    assert(t[p] == c[p + d]);
    assert(t[e - 1] == c[e - 1 + d]);
    lemma_balance_moves(t, c, k, d, '(', ')', p, q);
    assert forall|m: int| p + d < m < q + d implies #[trigger] balance(c, '(', ')', p + d, m)
        > 0 by {
        lemma_balance_moves(t, c, k, d, '(', ')', p, m - d);
        assert(balance(t, '(', ')', p, m - d) > 0);
    }
    assert(is_call_with(c, func, i + d, p + d, q + d, e + d));
}

proof fn lemma_start_moves(t: Seq<char>, c: Seq<char>, k: int, d: int, i: int)
    requires
        moved(t, c, k, d),
        k <= i <= t.len(),
        k > 0 ==> !in_call_name(t[k - 1]),
        k + d > 0 ==> !in_call_name(c[k + d - 1]),
    ensures
        call_start(c, i + d) == call_start(t, i) + d,
        k <= call_start(t, i),
    decreases i,
{
    if i > k {
        assert(t[i - 1] == c[i - 1 + d]);
        if in_call_name(t[i - 1]) {
            lemma_start_moves(t, c, k, d, i - 1);
        }
    }
}

proof fn lemma_find_moves(t: Seq<char>, c: Seq<char>, k: int, d: int, p: Seq<char>, i: int)
    requires
        moved(t, c, k, d),
        k <= i,
    ensures
        match find_from(c, p, i + d) {
            Some(j) => find_from(t, p, i) == Some(j - d),
            None => find_from(t, p, i) is None,
        },
    decreases t.len() - i,
{
    lemma_occurs_moves(t, c, k, d, p, i);
    if i + p.len() <= t.len() && !occurs_at(t, i, p) {
        if i < t.len() {
            lemma_find_moves(t, c, k, d, p, i + 1);
        }
    }
}

/// The text behind `pre` goes on with the text from `k` on.
spec fn behind(pre: Seq<char>, t: Seq<char>, k: int) -> Seq<char> {
    pre + t.subrange(k, t.len() as int)
}

/// The end of a call moves with the text.
proof fn lemma_call_end_moves(
    t: Seq<char>,
    c: Seq<char>,
    k: int,
    d: int,
    func: Seq<char>,
    i: int,
)
    requires
        moved(t, c, k, d),
        k <= i,
        occurs_at(t, i, func),
    ensures
        occurs_at(c, i + d, func),
        match call_end(t, func, i) {
            Some(e) => call_end(c, func, i + d) == Some(e + d),
            None => call_end(c, func, i + d) is None,
        },
{
    lemma_occurs_moves(t, c, k, d, func, i);
    lemma_moved_back(t, c, k, d);
    lemma_call(t, func, i);
    lemma_call(c, func, i + d);
    if let Some(e) = call_end(t, func, i) {
        lemma_call_moves(t, c, k, d, func, i, e);
    } else if let Some(e) = call_end(c, func, i + d) {
        lemma_call_moves(c, t, k + d, -d, func, i + d, e);
    }
}

/// Whether the search for calls may go on at `k` behind `pre`: no name goes on there.
spec fn is_break(pre: Seq<char>, t: Seq<char>, k: int) -> bool {
    &&& 0 <= k <= t.len()
    &&& k > 0 ==> !is_of_name(t[k - 1])
    &&& pre.len() > 0 ==> !is_of_name(pre[pre.len() - 1])
}

/// What is found is taken out.
proof fn lemma_statement_found(pre: Seq<char>, t: Seq<char>, func: Seq<char>, k: int, found: int)
    requires
        is_break(pre, t, k),
        k <= found,
        occurs_at(t, found, func),
        call_end(t, func, found) is Some,
    ensures
        ({
            let end = call_end(t, func, found)->0;
            let a = call_start(t, found);
            let next = pre + t.subrange(k, a);
            &&& k <= a <= found < end <= t.len()
            &&& is_break(next, t, end)
            &&& is_statement(t, func, a, found, end)
        }),
{
    let end = call_end(t, func, found)->0;
    let a = call_start(t, found);
    let next = pre + t.subrange(k, a);
    lemma_call(t, func, found);
    lemma_call_end(t, func, found);
    lemma_start(t, found);
    let c = behind(pre, t, k);
    let d = pre.len() - k;
    assert(moved(t, c, k, d));
    lemma_start_moves(t, c, k, d, found);
    let (p, q) = choose|p: int, q: int| #[trigger] is_call_with(t, func, found, p, q, end);
    assert(t[end - 1] == ';');
    if a > k {
        assert(next[next.len() - 1] == t[a - 1]);
    } else {
        assert(next =~= pre);
    }
}

proof fn lemma_unfolded(c: Seq<char>, func: Seq<char>, pos: int)
    requires
        func.len() > 0,
        0 <= pos <= c.len(),
    ensures
        match find_from(c, func, pos) {
            None => calls_removed(c, func, pos) == c,
            Some(found) => match call_end(c, func, found) {
                None => calls_removed(c, func, pos) == calls_removed(c, func, found + 1),
                Some(end) => calls_removed(c, func, pos) == calls_removed(
                    c.subrange(0, call_start(c, found)) + c.subrange(end, c.len() as int),
                    func,
                    call_start(c, found),
                ),
            },
        },
{
}

proof fn lemma_behind_cut(pre: Seq<char>, t: Seq<char>, k: int, a: int, end: int)
    requires
        0 <= k <= a <= end <= t.len(),
    ensures
        ({
            let c = behind(pre, t, k);
            let d = pre.len() - k;
            c.subrange(0, a + d) + c.subrange(end + d, c.len() as int) == behind(
                pre + t.subrange(k, a),
                t,
                end,
            )
        }),
{
    let c = behind(pre, t, k);
    let d = pre.len() - k;
    assert(c.subrange(0, a + d) =~= pre + t.subrange(k, a));
    assert(c.subrange(end + d, c.len() as int) =~= t.subrange(end, t.len() as int));
}

/// Where the search finds a place of the name in the text behind `pre`.
proof fn lemma_found(pre: Seq<char>, t: Seq<char>, func: Seq<char>, k: int, m: int)
    requires
        0 <= k <= m <= t.len(),
    ensures
        moved(t, behind(pre, t, k), k, pre.len() - k),
        match find_from(t, func, m) {
            Some(found) => find_from(behind(pre, t, k), func, pre.len() + m - k) == Some(
                found + pre.len() - k,
            ),
            None => find_from(behind(pre, t, k), func, pre.len() + m - k) is None,
        },
{
    let c = behind(pre, t, k);
    assert(moved(t, c, k, pre.len() - k));
    lemma_find_moves(t, c, k, pre.len() - k, func, m);
}

proof fn lemma_step_over(pre: Seq<char>, t: Seq<char>, func: Seq<char>, k: int, m: int, found: int)
    requires
        func.len() > 0,
        0 <= k <= m <= found,
        m <= t.len(),
        find_from(t, func, m) == Some(found),
        occurs_at(t, found, func),
        call_end(t, func, found) is None,
    ensures
        calls_removed(behind(pre, t, k), func, pre.len() + m - k) == calls_removed(
            behind(pre, t, k),
            func,
            pre.len() + (found + 1) - k,
        ),
{
    let c = behind(pre, t, k);
    let d = pre.len() - k;
    lemma_found(pre, t, func, k, m);
    lemma_call_end_moves(t, c, k, d, func, found);
    assert(call_end(c, func, found + d) is None);
    lemma_unfolded(c, func, m + d);
}

proof fn lemma_step_cut(pre: Seq<char>, t: Seq<char>, func: Seq<char>, k: int, m: int, found: int, end: int)
    requires
        func.len() > 0,
        is_break(pre, t, k),
        k <= m <= found,
        m <= t.len(),
        find_from(t, func, m) == Some(found),
        occurs_at(t, found, func),
        call_end(t, func, found) == Some(end),
        k <= call_start(t, found) <= end <= t.len(),
    ensures
        ({
            let next = pre + t.subrange(k, call_start(t, found));
            calls_removed(behind(pre, t, k), func, pre.len() + m - k) == calls_removed(
                behind(next, t, end),
                func,
                next.len() as int,
            )
        }),
{
    let c = behind(pre, t, k);
    let d = pre.len() - k;
    lemma_found(pre, t, func, k, m);
    lemma_call_end_moves(t, c, k, d, func, found);
    lemma_start_moves(t, c, k, d, found);
    let a = call_start(t, found);
    assert(call_end(c, func, found + d) == Some(end + d));
    assert(call_start(c, found + d) == a + d);
    lemma_unfolded(c, func, m + d);
    lemma_behind_cut(pre, t, k, a, end);
    assert((pre + t.subrange(k, a)).len() == a + d);
}

proof fn lemma_spliced_more(
    pre: Seq<char>,
    t: Seq<char>,
    k: int,
    a: int,
    e: int,
    more: Seq<(int, int)>,
)
    requires
        0 <= k <= a < e <= t.len(),
        are_ranges(more, e, t.len() as int),
    ensures
        (pre + t.subrange(k, a)) + spliced(t, more, Seq::empty(), e) == pre + spliced(
            t,
            with_range(a, e, more),
            Seq::empty(),
            k,
        ),
{
    let cuts = with_range(a, e, more);
    lemma_with_range(a, e, more, k, t.len() as int);
    assert((pre + t.subrange(k, a)) + spliced(t, more, Seq::empty(), e) =~= pre + spliced(
        t,
        cuts,
        Seq::empty(),
        k,
    ));
}

/// The calls from `m` on are taken out of a text that goes on at `k` behind `pre`.
proof fn lemma_calls_cut(pre: Seq<char>, t: Seq<char>, func: Seq<char>, k: int, m: int) -> (cuts: Seq<
    (int, int),
>)
    requires
        func.len() > 0,
        is_break(pre, t, k),
        k <= m <= t.len(),
    ensures
        are_ranges(cuts, k, t.len() as int),
        are_statements(t, func, cuts),
        cover_calls(t, func, cuts, m),
        calls_removed(behind(pre, t, k), func, pre.len() + m - k) == pre + spliced(
            t,
            cuts,
            Seq::empty(),
            k,
        ),
    decreases t.len() - m,
{
    lemma_find_from(t, func, m);
    match find_from(t, func, m) {
        None => {
            let cuts = Seq::<(int, int)>::empty();
            lemma_found(pre, t, func, k, m);
            lemma_unfolded(behind(pre, t, k), func, pre.len() + m - k);
            lemma_no_calls(t, func, m, cuts);
            cuts
        },
        Some(found) => {
            match call_end(t, func, found) {
                None => {
                    lemma_step_over(pre, t, func, k, m, found);
                    let cuts = lemma_calls_cut(pre, t, func, k, found + 1);
                    lemma_before(t, func, m, found, found + 1, cuts);
                    cuts
                },
                Some(end) => {
                    lemma_statement_found(pre, t, func, k, found);
                    lemma_step_cut(pre, t, func, k, m, found, end);
                    let a = call_start(t, found);
                    let next = pre + t.subrange(k, a);
                    let more = lemma_calls_cut(next, t, func, end, end);
                    let cuts = with_range(a, end, more);
                    lemma_with_range(a, end, more, k, t.len() as int);
                    lemma_more_statements(t, func, a, found, end, more);
                    lemma_cover_more(t, func, a, end, more);
                    lemma_before(t, func, m, found, end, cuts);
                    lemma_spliced_more(pre, t, k, a, end, more);
                    cuts
                },
            }
        },
    }
}

proof fn lemma_more_statements(
    t: Seq<char>,
    func: Seq<char>,
    a: int,
    i: int,
    e: int,
    more: Seq<(int, int)>,
)
    requires
        are_statements(t, func, more),
        is_statement(t, func, a, i, e),
    ensures
        are_statements(t, func, with_range(a, e, more)),
{
    let cuts = with_range(a, e, more);
    assert forall|k: int| 0 <= k < cuts.len() implies calls_it(
        t,
        func,
        (#[trigger] cuts[k]).0,
        cuts[k].1,
    ) by {
        if k > 0 {
            assert(cuts[k] == more[k - 1]);
        }
    }
}

proof fn lemma_cover_more(t: Seq<char>, func: Seq<char>, a: int, e: int, more: Seq<(int, int)>)
    requires
        cover_calls(t, func, more, e),
        a < e <= t.len(),
        are_ranges(more, e, t.len() as int),
    ensures
        cover_calls(t, func, with_range(a, e, more), e),
{
    reveal(cover_calls);
    lemma_with_range(a, e, more, a, t.len() as int);
}

proof fn lemma_no_calls(t: Seq<char>, func: Seq<char>, m: int, cuts: Seq<(int, int)>)
    requires
        0 <= m,
        find_from(t, func, m) is None,
    ensures
        cover_calls(t, func, cuts, m),
{
    reveal(cover_calls);
    lemma_find_from(t, func, m);
    assert forall|i: int, e: int| m <= i && #[trigger] is_call(t, func, i, e) implies in_ranges(
        cuts,
        i,
    ) by {
        let (p, q) = choose|p: int, q: int| #[trigger] is_call_with(t, func, i, p, q, e);
        assert(occurs_at(t, i, func));
    }
}

/// No call begins before the first place of the name; one that begins there or behind
/// is known to lie in a range.
proof fn lemma_before(
    t: Seq<char>,
    func: Seq<char>,
    m: int,
    found: int,
    next: int,
    cuts: Seq<(int, int)>,
)
    requires
        find_from(t, func, m) == Some(found),
        0 <= m <= found < next,
        forall|i: int|
            found <= i < next ==> #[trigger] in_ranges(cuts, i) || (i == found && call_end(
                t,
                func,
                i,
            ) is None),
        cover_calls(t, func, cuts, next),
    ensures
        cover_calls(t, func, cuts, m),
{
    reveal(cover_calls);
    lemma_find_from(t, func, m);
    assert forall|i: int, e: int| m <= i && #[trigger] is_call(t, func, i, e) implies in_ranges(
        cuts,
        i,
    ) by {
        let (p, q) = choose|p: int, q: int| #[trigger] is_call_with(t, func, i, p, q, e);
        assert(occurs_at(t, i, func));
        lemma_call(t, func, i);
    }
}

/// Taking the calls of a function out takes out every call, each with all of the name
/// that it is called by, and leaves what stands around them as it is.
pub proof fn law_every_call_is_taken_out(t: Seq<char>, func: Seq<char>) -> (cuts: Seq<(int, int)>)
    requires
        func.len() > 0,
    ensures
        are_ranges(cuts, 0, t.len() as int),
        are_statements(t, func, cuts),
        cover_calls(t, func, cuts, 0),
        calls_removed(t, func, 0) == spliced(t, cuts, Seq::empty(), 0),
{
    let pre = Seq::<char>::empty();
    let cuts = lemma_calls_cut(pre, t, func, 0, 0);
    assert(behind(pre, t, 0) =~= t);
    assert(pre + spliced(t, cuts, Seq::empty(), 0) =~= spliced(t, cuts, Seq::empty(), 0));
    cuts
}

/// A text without a call of the function comes back as it is.
pub proof fn law_text_without_calls_stays(t: Seq<char>, func: Seq<char>)
    requires
        func.len() > 0,
        forall|i: int, e: int| !is_call(t, func, i, e),
    ensures
        calls_removed(t, func, 0) == t,
{
    let cuts = law_every_call_is_taken_out(t, func);
    if cuts.len() > 0 {
        assert(calls_it(t, func, cuts[0].0, cuts[0].1));
        let i = choose|i: int| is_statement(t, func, cuts[0].0, i, cuts[0].1);
        assert(is_call(t, func, i, cuts[0].1));
    }
    assert(t.subrange(0, t.len() as int) =~= t);
}

/// Whether the name of `func`, or a call of it but for the semicolon, stands from `i`
/// up to `j`.
pub open spec fn is_named_up_to(t: Seq<char>, func: Seq<char>, i: int, j: int) -> bool {
    &&& occurs_at(t, i, func)
    &&& j == i + func.len() || exists|p: int|
        all_white(t, i + func.len(), p) && #[trigger] is_list(t, '(', ')', p, j)
}

/// Whether no statement that calls `func` follows directly on the name of `func`, or
/// on a call of it that lacks its semicolon.
pub open spec fn stand_apart(t: Seq<char>, func: Seq<char>) -> bool {
    forall|i: int, j: int, a: int, e: int|
        #![trigger is_named_up_to(t, func, i, j), calls_it(t, func, a, e)]
        is_named_up_to(t, func, i, j) && calls_it(t, func, a, e) ==> !all_white(t, j, a)
}

proof fn lemma_no_brackets(t: Seq<char>, x: int, y: int, d: int)
    requires
        0 <= x <= y <= t.len(),
        forall|k: int| x <= k < y ==> #[trigger] t[k] != '(' && t[k] != ')',
    ensures
        closed_at(t, '(', ')', x, d) == closed_at(t, '(', ')', y, d),
    decreases y - x,
{
    if x < y {
        assert(t[x] != '(' && t[x] != ')');
        lemma_no_brackets(t, x + 1, y, d);
    }
}

proof fn lemma_in_list(t: Seq<char>, p: int, q: int, m: int, d: int)
    requires
        is_list(t, '(', ')', p, q),
        p <= m <= q,
        d >= 1,
    ensures
        closed_at(t, '(', ')', p, d) == closed_at(t, '(', ')', m, d + balance(t, '(', ')', p, m)),
    decreases m - p,
{
    if m > p {
        lemma_in_list(t, p, q, m - 1, d);
        if m - 1 > p {
            assert(balance(t, '(', ')', p, m - 1) > 0);
        } else {
            assert(balance(t, '(', ')', p, p) == 0);
        }
    }
}

/// A statement opens as many lists as it closes.
proof fn lemma_over_statement(t: Seq<char>, func: Seq<char>, a: int, b: int, d: int)
    requires
        calls_it(t, func, a, b),
        forall|k: int| 0 <= k < func.len() ==> is_of_name(#[trigger] func[k]),
        d >= 1,
    ensures
        closed_at(t, '(', ')', a, d) == closed_at(t, '(', ')', b, d),
        0 <= a < b <= t.len(),
        a == 0 || !is_of_name(t[a - 1]),
{
    let i = choose|i: int| is_statement(t, func, a, i, b);
    let (p, q) = choose|p: int, q: int| #[trigger] is_call_with(t, func, i, p, q, b);
    assert forall|k: int| a <= k < p implies #[trigger] t[k] != '(' && t[k] != ')' by {
        if i <= k < i + func.len() {
            assert(t.subrange(i, i + func.len())[k - i] == t[k]);
            assert(is_of_name(func[k - i]));
        } else if k < i {
            assert(is_of_name(t[k]));
        } else {
            assert(is_white(t[k]));
        }
    }
    lemma_no_brackets(t, a, p, d);
    lemma_in_list(t, p, q, q, d);
    assert forall|k: int| q <= k < b implies #[trigger] t[k] != '(' && t[k] != ')' by {
        if k < b - 1 {
            assert(is_white(t[k]));
        }
    }
    lemma_no_brackets(t, q, b, d);
}

proof fn lemma_closed_moves(t: Seq<char>, c: Seq<char>, k: int, d: int, i: int, depth: int)
    requires
        moved(t, c, k, d),
        k <= i <= t.len(),
    ensures
        match closed_at(t, '(', ')', i, depth) {
            Some(e) => closed_at(c, '(', ')', i + d, depth) == Some(e + d),
            None => closed_at(c, '(', ')', i + d, depth) is None,
        },
    decreases t.len() - i,
{
    if i < t.len() {
        assert(t[i] == c[i + d]);
        if t[i] == '(' {
            lemma_closed_moves(t, c, k, d, i + 1, depth + 1);
        } else if t[i] == ')' {
            if depth > 1 {
                lemma_closed_moves(t, c, k, d, i + 1, depth - 1);
            }
        } else {
            lemma_closed_moves(t, c, k, d, i + 1, depth);
        }
    }
}

/// Two texts that agree from `x` up to `a`: either a list closes there in both, or
/// both go on behind it at the same depth.
proof fn lemma_closes_alike(t: Seq<char>, r: Seq<char>, k: int, x: int, a: int, depth: int) -> (after:
    int)
    requires
        0 <= k <= x <= a <= t.len(),
        a - k <= r.len(),
        forall|j: int| x <= j < a ==> #[trigger] t[j] == r[j - k],
        depth >= 1,
    ensures
        after == 0 ==> {
            &&& closed_at(t, '(', ')', x, depth) matches Some(q)
            &&& x < q <= a
            &&& closed_at(r, '(', ')', x - k, depth) == Some(q - k)
        },
        after != 0 ==> {
            &&& after >= 1
            &&& closed_at(t, '(', ')', x, depth) == closed_at(t, '(', ')', a, after)
            &&& closed_at(r, '(', ')', x - k, depth) == closed_at(r, '(', ')', a - k, after)
        },
    decreases a - x,
{
    if x == a {
        depth
    } else {
        assert(t[x] == r[x - k]);
        if t[x] == '(' {
            lemma_closes_alike(t, r, k, x + 1, a, depth + 1)
        } else if t[x] == ')' {
            if depth <= 1 {
                0
            } else {
                lemma_closes_alike(t, r, k, x + 1, a, depth - 1)
            }
        } else {
            lemma_closes_alike(t, r, k, x + 1, a, depth)
        }
    }
}

/// The text between two ranges and the rest behind it.
proof fn lemma_gap(t: Seq<char>, func: Seq<char>, cuts: Seq<(int, int)>, k: int)
    requires
        cuts.len() > 0,
        0 <= k,
        are_ranges(cuts, k, t.len() as int),
        are_statements(t, func, cuts),
    ensures
        ({
            let a = cuts[0].0;
            let b = cuts[0].1;
            let more = cuts.drop_first();
            let r = spliced(t, cuts, Seq::empty(), k);
            let rest = spliced(t, more, Seq::empty(), b);
            &&& k <= a < b <= t.len()
            &&& calls_it(t, func, a, b)
            &&& are_ranges(more, b, t.len() as int)
            &&& are_statements(t, func, more)
            &&& r.len() == a - k + rest.len()
            &&& forall|j: int| k <= j < a ==> #[trigger] t[j] == r[j - k]
            &&& moved(rest, r, 0, a - k)
            &&& moved(r, rest, a - k, k - a)
            &&& forall|i: int| in_ranges(cuts, i) && i >= b ==> #[trigger] in_ranges(more, i)
            &&& forall|i: int| #[trigger] in_ranges(cuts, i) ==> i >= a
        }),
{
    let a = cuts[0].0;
    let b = cuts[0].1;
    let more = cuts.drop_first();
    let r = spliced(t, cuts, Seq::empty(), k);
    let rest = spliced(t, more, Seq::empty(), b);
    assert(r =~= t.subrange(k, a) + rest);
    assert forall|l: int| 0 <= l < more.len() implies b <= (#[trigger] more[l]).0 < more[l].1
        <= t.len() && calls_it(t, func, more[l].0, more[l].1) by {
        assert(more[l] == cuts[l + 1]);
        assert(cuts[0].1 <= cuts[l + 1].0);
    }
    assert forall|l: int, m: int| 0 <= l < m < more.len() implies (#[trigger] more[l]).1 <= (
    #[trigger] more[m]).0 by {
        assert(cuts[l + 1].1 <= cuts[m + 1].0);
    }
    lemma_moved_back(rest, r, 0, a - k);
    assert forall|i: int| in_ranges(cuts, i) && i >= b implies #[trigger] in_ranges(more, i) by {
        let l = choose|l: int| 0 <= l < cuts.len() && (#[trigger] cuts[l]).0 <= i < cuts[l].1;
        assert(more[l - 1] == cuts[l]);
    }
    assert forall|i: int| #[trigger] in_ranges(cuts, i) implies i >= a by {
        let l = choose|l: int| 0 <= l < cuts.len() && (#[trigger] cuts[l]).0 <= i < cuts[l].1;
        assert(l > 0 ==> cuts[0].1 <= cuts[l].0);
    }
}

/// What a list that is open at `k` ends with in `t`, where without the statements it
/// ends with a semicolon: with a semicolon too, or with one of the statements.
proof fn lemma_list_ends(
    t: Seq<char>,
    func: Seq<char>,
    cuts: Seq<(int, int)>,
    k: int,
    depth: int,
    q1: int,
    e1: int,
) -> (ends: (int, int, int))
    requires
        0 <= k <= t.len(),
        forall|j: int| 0 <= j < func.len() ==> is_of_name(#[trigger] func[j]),
        are_ranges(cuts, k, t.len() as int),
        are_statements(t, func, cuts),
        depth >= 1,
        ({
            let r = spliced(t, cuts, Seq::empty(), k);
            &&& closed_at(r, '(', ')', 0, depth) == Some(q1)
            &&& all_white(r, q1, e1 - 1)
            &&& e1 <= r.len()
            &&& r[e1 - 1] == ';'
        }),
    ensures
        closed_at(t, '(', ')', k, depth) == Some(ends.0),
        ends.2 < 0 ==> all_white(t, ends.0, ends.1 - 1) && ends.1 <= t.len() && t[ends.1 - 1]
            == ';',
        ends.2 >= 0 ==> ends.2 < cuts.len() && all_white(t, ends.0, cuts[ends.2].0),
    decreases cuts.len(),
{
    let r = spliced(t, cuts, Seq::empty(), k);
    if cuts.len() == 0 {
        assert(moved(r, t, 0, k));
        lemma_closed_moves(r, t, 0, k, 0, depth);
        assert forall|j: int| q1 + k <= j < e1 - 1 + k implies is_white(#[trigger] t[j]) by {
            assert(r[j - k] == t[j - k + k]);
        }
        lemma_closed_at(r, '(', ')', 0, depth);
        assert(r[e1 - 1] == t[e1 - 1 + k]);
        (q1 + k, e1 + k, -1)
    } else {
        let (a, b) = cuts[0];
        let more = cuts.drop_first();
        let rest = spliced(t, more, Seq::empty(), b);
        lemma_gap(t, func, cuts, k);
        let after = lemma_closes_alike(t, r, k, k, a, depth);
        if after == 0 {
            let q = q1 + k;
            if e1 <= a - k {
                assert forall|j: int| q <= j < e1 - 1 + k implies is_white(#[trigger] t[j]) by {
                    assert(t[j] == r[j - k]);
                }
                assert(t[e1 - 1 + k] == r[e1 - 1]);
                (q, e1 + k, -1)
            } else {
                assert forall|j: int| q <= j < a implies is_white(#[trigger] t[j]) by {
                    assert(t[j] == r[j - k]);
                }
                (q, 0, 0)
            }
        } else {
            lemma_over_statement(t, func, a, b, after);
            lemma_closed_moves(r, rest, a - k, k - a, a - k, after);
            lemma_closed_at(rest, '(', ')', 0, after);
            let q2 = q1 + k - a;
            let e2 = e1 + k - a;
            assert forall|j: int| q2 <= j < e2 - 1 implies is_white(#[trigger] rest[j]) by {
                assert(rest[j] == r[j + (a - k)]);
            }
            assert(rest[e2 - 1] == r[e2 - 1 + (a - k)]);
            let (q, e, l) = lemma_list_ends(t, func, more, b, after, q2, e2);
            if l < 0 {
                (q, e, -1)
            } else {
                assert(more[l] == cuts[l + 1]);
                (q, e, l + 1)
            }
        }
    }
}

/// A call that stands in the text without the statements stood there before, outside
/// of them.
#[verifier::rlimit(40)]
proof fn lemma_call_stood(
    t: Seq<char>,
    func: Seq<char>,
    cuts: Seq<(int, int)>,
    k: int,
    i1: int,
    e1: int,
) -> (stood: (int, int))
    requires
        0 <= k <= t.len(),
        func.len() > 0,
        forall|j: int| 0 <= j < func.len() ==> is_of_name(#[trigger] func[j]),
        are_ranges(cuts, k, t.len() as int),
        are_statements(t, func, cuts),
        stand_apart(t, func),
        is_call(spliced(t, cuts, Seq::empty(), k), func, i1, e1),
    ensures
        is_call(t, func, stood.0, stood.1),
        stood.0 >= k,
        !in_ranges(cuts, stood.0),
    decreases cuts.len(),
{
    let r = spliced(t, cuts, Seq::empty(), k);
    let (p1, q1) = choose|p: int, q: int| #[trigger] is_call_with(r, func, i1, p, q, e1);
    if cuts.len() == 0 {
        assert(moved(r, t, 0, k));
        assert(is_call_with(r, func, i1, p1, q1, e1));
        lemma_call_moves(r, t, 0, k, func, i1, e1);
        (i1 + k, e1 + k)
    } else {
        let (a, b) = cuts[0];
        let more = cuts.drop_first();
        lemma_gap(t, func, cuts, k);
        if i1 >= a - k {
            lemma_call_moves(r, spliced(t, more, Seq::empty(), b), a - k, k - a, func, i1, e1);
            lemma_call_stood(t, func, more, b, i1 + k - a, e1 + k - a)
        } else {
            lemma_call_before(t, func, cuts, k, i1, p1, q1, e1)
        }
    }
}

/// A call that begins before the first of the statements opens its list before it.
proof fn lemma_name_before(
    t: Seq<char>,
    func: Seq<char>,
    cuts: Seq<(int, int)>,
    k: int,
    i1: int,
    p1: int,
)
    requires
        0 <= k <= t.len(),
        func.len() > 0,
        forall|j: int| 0 <= j < func.len() ==> is_of_name(#[trigger] func[j]),
        cuts.len() > 0,
        are_ranges(cuts, k, t.len() as int),
        are_statements(t, func, cuts),
        stand_apart(t, func),
        occurs_at(spliced(t, cuts, Seq::empty(), k), i1, func),
        all_white(spliced(t, cuts, Seq::empty(), k), i1 + func.len(), p1),
        i1 < cuts[0].0 - k,
    ensures
        occurs_at(t, i1 + k, func),
        all_white(t, i1 + k + func.len(), p1 + k),
        p1 + k < cuts[0].0,
{
    let r = spliced(t, cuts, Seq::empty(), k);
    let (a, b) = cuts[0];
    lemma_gap(t, func, cuts, k);
    lemma_over_statement(t, func, a, b, 1);
    let i = i1 + k;
    let n = (i + func.len()) as int;
    if n > a {
        assert(r.subrange(i1, i1 + func.len())[a - 1 - i] == r[a - 1 - k]);
        assert(t[a - 1] == r[a - 1 - k]);
        assert(is_of_name(func[a - 1 - i]));
        assert(false);
    }
    assert(t.subrange(i, n) =~= func) by {
        assert forall|j: int| 0 <= j < func.len() implies t.subrange(i, n)[j] == func[j] by {
            assert(t[i + j] == r[i + j - k]);
            assert(r.subrange(i1, i1 + func.len())[j] == r[i1 + j]);
        }
    }
    assert(occurs_at(t, i, func));
    let upto = if p1 + k < a {
        p1 + k
    } else {
        a
    };
    assert forall|j: int| n <= j < upto implies is_white(#[trigger] t[j]) by {
        assert(t[j] == r[j - k]);
    }
    if p1 + k >= a {
        assert(is_named_up_to(t, func, i, n));
        assert(all_white(t, n, a));
    }
}

/// The text without the statements, from a later place on.
proof fn lemma_later(t: Seq<char>, func: Seq<char>, cuts: Seq<(int, int)>, k: int, x: int)
    requires
        0 <= k <= x <= t.len(),
        cuts.len() > 0,
        are_ranges(cuts, k, t.len() as int),
        are_statements(t, func, cuts),
        x <= cuts[0].0,
    ensures
        are_ranges(cuts, x, t.len() as int),
        moved(
            spliced(t, cuts, Seq::empty(), k),
            spliced(t, cuts, Seq::empty(), x),
            x - k,
            k - x,
        ),
{
    let r = spliced(t, cuts, Seq::empty(), k);
    let s = spliced(t, cuts, Seq::empty(), x);
    let (a, b) = cuts[0];
    let rest = spliced(t, cuts.drop_first(), Seq::empty(), b);
    assert(r =~= t.subrange(k, a) + rest);
    assert(s =~= t.subrange(x, a) + rest);
    assert forall|j: int| x - k <= j < r.len() implies #[trigger] r[j] == s[j + (k - x)] by {}
    assert forall|l: int| 0 <= l < cuts.len() implies x <= (#[trigger] cuts[l]).0 < cuts[l].1
        <= t.len() by {
        assert(l > 0 ==> cuts[0].1 <= cuts[l].0);
    }
}

proof fn lemma_call_before(
    t: Seq<char>,
    func: Seq<char>,
    cuts: Seq<(int, int)>,
    k: int,
    i1: int,
    p1: int,
    q1: int,
    e1: int,
) -> (stood: (int, int))
    requires
        0 <= k <= t.len(),
        func.len() > 0,
        forall|j: int| 0 <= j < func.len() ==> is_of_name(#[trigger] func[j]),
        cuts.len() > 0,
        are_ranges(cuts, k, t.len() as int),
        are_statements(t, func, cuts),
        stand_apart(t, func),
        is_call_with(spliced(t, cuts, Seq::empty(), k), func, i1, p1, q1, e1),
        i1 < cuts[0].0 - k,
    ensures
        is_call(t, func, stood.0, stood.1),
        stood.0 >= k,
        !in_ranges(cuts, stood.0),
{
    let r = spliced(t, cuts, Seq::empty(), k);
    let i = i1 + k;
    let p = p1 + k;
    lemma_name_before(t, func, cuts, k, i1, p1);
    assert(t[p] == r[p1] && !in_ranges(cuts, i)) by {
        lemma_gap(t, func, cuts, k);
        assert(t[p] == r[p - k]);
    }
    lemma_list_closes(r, '(', ')', p1);
    let s = spliced(t, cuts, Seq::empty(), p + 1);
    let d = -(p1 + 1);
    lemma_later(t, func, cuts, k, p + 1);
    lemma_closed_moves(r, s, p1 + 1, d, p1 + 1, 1);
    lemma_closed_at(r, '(', ')', p1 + 1, 1);
    assert(all_white(s, q1 + d, e1 - 1 + d)) by {
        assert forall|j: int| q1 + d <= j < e1 - 1 + d implies is_white(#[trigger] s[j]) by {
            assert(r[j - d] == s[j - d + d]);
        }
    }
    assert(r[e1 - 1] == s[e1 - 1 + d]);
    let (q, e, l) = lemma_list_ends(t, func, cuts, p + 1, 1, q1 + d, e1 + d);
    lemma_list_closes(t, '(', ')', p);
    assert(is_list(t, '(', ')', p, q));
    if l >= 0 {
        assert(is_named_up_to(t, func, i, q));
        assert(calls_it(t, func, cuts[l].0, cuts[l].1));
        assert(false);
    }
    assert(is_call_with(t, func, i, p, q, e));
    (i, e)
}

/// No call of the function is left, where its calls stand apart: none follows
/// directly on the name, or on a call that lacks its semicolon.
pub proof fn law_no_call_is_left(t: Seq<char>, func: Seq<char>, i: int, e: int)
    requires
        func.len() > 0,
        forall|k: int| 0 <= k < func.len() ==> is_of_name(#[trigger] func[k]),
        stand_apart(t, func),
    ensures
        !is_call(calls_removed(t, func, 0), func, i, e),
{
    let cuts = law_every_call_is_taken_out(t, func);
    if is_call(calls_removed(t, func, 0), func, i, e) {
        let (j, f) = lemma_call_stood(t, func, cuts, 0, i, e);
        reveal(cover_calls);
        assert(is_call(t, func, j, f));
        let (p, q) = choose|p: int, q: int| #[trigger] is_call_with(t, func, j, p, q, f);
        assert(in_ranges(cuts, j));
    }
}

/// Whether `u` is `t` without the calls of `func`: they are taken out, each with all of
/// the name that it is called by, and the rest stays.
pub open spec fn is_without_calls(t: Seq<char>, func: Seq<char>, u: Seq<char>) -> bool {
    exists|cuts: Seq<(int, int)>|
        {
            &&& are_ranges(cuts, 0, t.len() as int)
            &&& are_statements(t, func, cuts)
            &&& cover_calls(t, func, cuts, 0)
            &&& u == #[trigger] spliced(t, cuts, Seq::empty(), 0)
        }
}

proof fn lemma_without_none(t: Seq<char>, functions: Seq<Seq<char>>, n: nat)
    requires
        n <= functions.len(),
        !has_one_of(t, functions),
        forall|k: int| 0 <= k < functions.len() ==> (#[trigger] functions[k]).len() > 0,
    ensures
        without_calls(t, functions, n) == t,
    decreases n,
{
    if n > 0 {
        lemma_without_none(t, functions, (n - 1) as nat);
        let func = functions[n - 1];
        assert(!contains_text(t, func));
        assert forall|i: int, e: int| !is_call(t, func, i, e) by {
            if is_call(t, func, i, e) {
                let (p, q) = choose|p: int, q: int| #[trigger] is_call_with(t, func, i, p, q, e);
                assert(occurs_at(t, i, func));
            }
        }
        law_text_without_calls_stays(t, func);
    }
}

/// The camera patch takes the calls of the nine functions that move the camera out of
/// a script, one function after the other, and nothing else.
pub proof fn law_camera_patch_takes_the_calls_out(
    path: Seq<char>,
    bytes: Seq<u8>,
    zoom: Seq<char>,
) -> (steps: Seq<Seq<char>>)
    requires
        utf16_file_text(bytes) is Ok,
        !same_name(path, "metadata/characters/character.ot"@),
    ensures
        ({
            let names = seq![
                "CreateCameraZoomNode"@,
                "ClearCameraZoomNodes"@,
                "CreateCameraLookAtNode"@,
                "CreateCameraPanNode"@,
                "ClearCameraPanNode"@,
                "ClearCameraPanNodes"@,
                "SetCustomCameraSpeed"@,
                "RemoveCustomCameraSpeed"@,
                "FaceCamera"@,
            ];
            let out = transformed(PatchId::Camera, path, bytes, zoom);
            &&& steps.len() == 10
            &&& steps[0] == utf16_file_text(bytes)->Ok_0
            &&& forall|k: int|
                0 <= k < 9 ==> is_without_calls(#[trigger] steps[k], names[k], steps[k + 1])
            &&& out is Ok
            &&& utf16_file_text(out->Ok_0) == Ok::<Seq<char>, TransformError>(
                without_marks(steps[9]),
            )
        }),
{
    let t = utf16_file_text(bytes)->Ok_0;
    let names = camera_functions();
    lemma_camera_names();
    let steps = Seq::new(10, |k: int| without_calls(t, names, k as nat));
    assert forall|k: int| 0 <= k < 9 implies is_without_calls(
        #[trigger] steps[k],
        names[k],
        steps[k + 1],
    ) by {
        assert(names[k].len() > 0);
        assert(steps[k + 1] == calls_removed(steps[k], names[k], 0));
        let cuts = law_every_call_is_taken_out(steps[k], names[k]);
        assert(steps[k + 1] == spliced(steps[k], cuts, Seq::empty(), 0));
    }
    if !has_one_of(t, names) {
        lemma_without_none(t, names, 9);
        lemma_without_marks(utf16_text(byte_units(bytes))->0);
        assert(without_marks(t) == t);
    } else {
        law_utf16_file_reads_back(steps[9]);
    }
    steps
}

proof fn lemma_camera_names()
    ensures
        camera_functions().len() == 9,
        forall|k: int| 0 <= k < 9 ==> (#[trigger] camera_functions()[k]).len() > 0,
{
    reveal_strlit("CreateCameraZoomNode");
    reveal_strlit("ClearCameraZoomNodes");
    reveal_strlit("CreateCameraLookAtNode");
    reveal_strlit("CreateCameraPanNode");
    reveal_strlit("ClearCameraPanNode");
    reveal_strlit("ClearCameraPanNodes");
    reveal_strlit("SetCustomCameraSpeed");
    reveal_strlit("RemoveCustomCameraSpeed");
    reveal_strlit("FaceCamera");
}

} // verus!
