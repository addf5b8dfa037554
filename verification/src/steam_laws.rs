//! How Steam's files are read.

use crate::install::{
    all_digits, first_install_dir, install_dir_in_line, libraries_in, library_in_line, nonblank,
    odd_parts, unescaped,
};
use crate::pick_laws::{and_last, lemma_picks_more, lemma_picks_none, picks};
use crate::text::{
    blank, contains_text, find_from, index_of_char, lemma_find_from, lines_of, occurs_at, replaced, split_on, strip_cr,
};
use vstd::prelude::*;

verus! {

proof fn lemma_index_is(s: Seq<char>, c: char, i: int, e: int)
    requires
        0 <= i <= e <= s.len(),
        e < s.len() ==> s[e] == c,
        forall|k: int| i <= k < e ==> #[trigger] s[k] != c,
    ensures
        index_of_char(s, c, i) == e,
    decreases e - i,
{
    if i < e {
        assert(s[i] != c);
        lemma_index_is(s, c, i + 1, e);
    }
}

pub proof fn lemma_split_front(a: Seq<char>, c: char, b: Seq<char>)
    requires
        !a.contains(c),
    ensures
        split_on(a + seq![c] + b, c) == seq![a] + split_on(b, c),
{
    let s = a + seq![c] + b;
    assert forall|k: int| 0 <= k < a.len() implies #[trigger] s[k] != c by {
        assert(a.contains(a[k]));
    }
    lemma_index_is(s, c, 0, a.len() as int);
    assert(s.subrange(0, a.len() as int) =~= a);
    assert(s.subrange((a.len() + 1) as int, s.len() as int) =~= b);
}

pub proof fn lemma_split_none(a: Seq<char>, c: char)
    requires
        !a.contains(c),
    ensures
        split_on(a, c) == seq![a],
{
    assert forall|k: int| 0 <= k < a.len() implies #[trigger] a[k] != c by {
        assert(a.contains(a[k]));
    }
    lemma_index_is(a, c, 0, a.len() as int);
}

/// A key and a value in quotes, with something in front, between and behind.
pub open spec fn key_line(
    front: Seq<char>,
    key: Seq<char>,
    between: Seq<char>,
    value: Seq<char>,
    behind: Seq<char>,
) -> Seq<char> {
    front + seq!['"'] + key + seq!['"'] + between + seq!['"'] + value + seq!['"'] + behind
}

/// Whether none of the five has a quote in it.
pub open spec fn no_quotes(
    front: Seq<char>,
    key: Seq<char>,
    between: Seq<char>,
    value: Seq<char>,
    behind: Seq<char>,
) -> bool {
    !front.contains('"') && !key.contains('"') && !between.contains('"') && !value.contains('"')
        && !behind.contains('"')
}

proof fn lemma_key_line(
    front: Seq<char>,
    key: Seq<char>,
    between: Seq<char>,
    value: Seq<char>,
    behind: Seq<char>,
)
    requires
        no_quotes(front, key, between, value, behind),
    ensures
        split_on(key_line(front, key, between, value, behind), '"') == seq![
            front,
            key,
            between,
            value,
            behind,
        ],
{
    let q = seq!['"'];
    let d = value + q + behind;
    let c = between + q + d;
    let b = key + q + c;
    assert(key_line(front, key, between, value, behind) =~= front + q + b);
    lemma_split_front(front, '"', b);
    lemma_split_front(key, '"', c);
    lemma_split_front(between, '"', d);
    lemma_split_front(value, '"', behind);
    lemma_split_none(behind, '"');
    assert(split_on(key_line(front, key, between, value, behind), '"') =~= seq![
        front,
        key,
        between,
        value,
        behind,
    ]);
}

/// A path as Steam writes it: each backslash twice.
pub open spec fn escaped(s: Seq<char>) -> Seq<char>
    decreases s.len(),
{
    if s.len() == 0 {
        s
    } else if s[0] == '\\' {
        seq!['\\', '\\'] + escaped(s.drop_first())
    } else {
        seq![s[0]] + escaped(s.drop_first())
    }
}

pub proof fn lemma_replaced_at(s: Seq<char>, from: Seq<char>, to: Seq<char>, j: int)
    requires
        from.len() > 0,
        occurs_at(s, j, from),
        forall|k: int| 0 <= k < j ==> !occurs_at(s, k, from),
    ensures
        replaced(s, from, to) == s.subrange(0, j) + to + replaced(
            s.subrange(j + from.len(), s.len() as int),
            from,
            to,
        ),
{
    lemma_find_from(s, from, 0);
    assert(find_from(s, from, 0) == Some(j));
}

/// A character in front that does not begin the text stays.
pub proof fn lemma_replaced_behind(c: char, s: Seq<char>, from: Seq<char>, to: Seq<char>)
    requires
        from.len() > 0,
        from[0] != c,
    ensures
        replaced(seq![c] + s, from, to) == seq![c] + replaced(s, from, to),
{
    let t = seq![c] + s;
    assert(!occurs_at(t, 0, from)) by {
        if occurs_at(t, 0, from) {
            assert(t.subrange(0, from.len() as int)[0] == c);
        }
    }
    assert forall|k: int| k >= 0 implies occurs_at(s, k, from) == occurs_at(t, k + 1, from) by {
        if k + from.len() <= s.len() {
            assert(s.subrange(k, k + from.len()) =~= t.subrange(k + 1, k + 1 + from.len()));
        }
    }
    lemma_find_from(s, from, 0);
    lemma_find_from(t, from, 0);
    match find_from(s, from, 0) {
        None => {
            if let Some(j) = find_from(t, from, 0) {
                assert(occurs_at(s, j - 1, from) == occurs_at(t, j - 1 + 1, from));
            }
        },
        Some(j) => {
            assert(occurs_at(t, j + 1, from));
            assert forall|k: int| 0 <= k < j + 1 implies !occurs_at(t, k, from) by {
                if k > 0 {
                    assert(occurs_at(s, k - 1, from) == occurs_at(t, k - 1 + 1, from));
                }
            }
            lemma_replaced_at(t, from, to, j + 1);
            lemma_replaced_at(s, from, to, j);
            assert(t.subrange(0, j + 1) =~= seq![c] + s.subrange(0, j));
            assert(t.subrange(j + 1 + from.len(), t.len() as int) =~= s.subrange(
                j + from.len(),
                s.len() as int,
            ));
            assert(replaced(t, from, to) =~= seq![c] + replaced(s, from, to));
        },
    }
}

/// A path is meant as it was before each of its backslashes was written twice.
pub proof fn law_doubled_backslashes_are_read(path: Seq<char>)
    ensures
        unescaped(escaped(path)) == path,
    decreases path.len(),
{
    let from = "\\\\"@;
    let to = "\\"@;
    reveal_strlit("\\\\");
    reveal_strlit("\\");
    assert(from =~= seq!['\\', '\\']);
    assert(to =~= seq!['\\']);
    let s = escaped(path);
    if path.len() == 0 {
        lemma_find_from(s, from, 0);
        assert(replaced(s, from, to) =~= path);
    } else {
        let rest = path.drop_first();
        law_doubled_backslashes_are_read(rest);
        assert(path =~= seq![path[0]] + rest);
        if path[0] == '\\' {
            assert(s.subrange(0, 2) =~= from);
            assert(occurs_at(s, 0, from));
            lemma_replaced_at(s, from, to, 0);
            assert(s.subrange(from.len() as int, s.len() as int) =~= escaped(rest));
            assert(replaced(s, from, to) =~= path);
        } else {
            lemma_replaced_behind(path[0], escaped(rest), from, to);
        }
    }
}

/// A line with the key `path` names a library folder: its value, where each backslash
/// is written twice. So does one whose key is a number, if the value looks like a path.
pub proof fn law_library_lines_are_read(
    front: Seq<char>,
    key: Seq<char>,
    between: Seq<char>,
    folder: Seq<char>,
    behind: Seq<char>,
)
    requires
        no_quotes(front, key, between, escaped(folder), behind),
        key == "path"@ || (all_digits(key) && (escaped(folder).contains(':') || escaped(
            folder,
        ).contains('/') || contains_text(escaped(folder), "\\\\"@))),
    ensures
        library_in_line(key_line(front, key, between, escaped(folder), behind)) == Some(folder),
{
    let value = escaped(folder);
    lemma_key_line(front, key, between, value, behind);
    let fields = odd_parts(split_on(key_line(front, key, between, value, behind), '"'));
    assert(fields =~= seq![key, value]);
    law_doubled_backslashes_are_read(folder);
}

/// A line with another key, or with a number and a value that does not look like a path,
/// names none.
pub proof fn law_other_lines_name_no_library(
    front: Seq<char>,
    key: Seq<char>,
    between: Seq<char>,
    value: Seq<char>,
    behind: Seq<char>,
)
    requires
        no_quotes(front, key, between, value, behind),
        key != "path"@,
        !all_digits(key) || !(value.contains(':') || value.contains('/') || contains_text(
            value,
            "\\\\"@,
        )),
    ensures
        library_in_line(key_line(front, key, between, value, behind)) is None,
{
    lemma_key_line(front, key, between, value, behind);
    let fields = odd_parts(split_on(key_line(front, key, between, value, behind), '"'));
    assert(fields =~= seq![key, value]);
}

/// The library folders of a list are those of the lines that name one, in their order.
pub proof fn law_libraries_come_from_their_lines(lines: Seq<Seq<char>>, n: nat) -> (at: Seq<int>)
    requires
        n <= lines.len(),
    ensures
        picks(at, Seq::new(n, |i: int| library_in_line(lines[i]) is Some)),
        libraries_in(lines, n).len() == at.len(),
        forall|k: int|
            0 <= k < at.len() ==> library_in_line(lines[at[k]]) == Some(
                #[trigger] libraries_in(lines, n)[k],
            ),
    decreases n,
{
    let want = Seq::new(n, |i: int| library_in_line(lines[i]) is Some);
    if n == 0 {
        lemma_picks_none(want);
        Seq::empty()
    } else {
        let l = (n - 1) as nat;
        let at = law_libraries_come_from_their_lines(lines, l);
        let before = libraries_in(lines, l);
        let less = Seq::new(l, |i: int| library_in_line(lines[i]) is Some);
        assert(want.drop_last() =~= less);
        lemma_picks_more(at, less, want);
        let all = and_last(at, n - 1, want.last());
        let r = libraries_in(lines, n);
        assert forall|k: int| 0 <= k < all.len() implies library_in_line(lines[all[k]]) == Some(
            #[trigger] r[k],
        ) by {
            if k < at.len() {
                assert(r[k] == before[k]);
                assert(all[k] == at[k]);
            }
        }
        all
    }
}

/// A line of the manifest with the key `installdir` names the game's folder.
pub proof fn law_install_line_is_read(
    front: Seq<char>,
    between: Seq<char>,
    folder: Seq<char>,
    behind: Seq<char>,
)
    requires
        no_quotes(front, "installdir"@, between, folder, behind),
        blank(front),
        blank(between),
        blank(behind),
        !blank(folder),
    ensures
        install_dir_in_line(key_line(front, "installdir"@, between, folder, behind)) == Some(folder),
{
    let key = "installdir"@;
    lemma_key_line(front, key, between, folder, behind);
    let parts = seq![front, key, between, folder, behind];
    reveal_strlit("installdir");
    assert(!blank(key)) by {
        assert(!crate::text::unicode_whitespace(key[0]));
    }
    let p = |p: Seq<char>| !blank(p);
    let none = Seq::<Seq<char>>::empty();
    assert(parts =~= none.push(front).push(key).push(between).push(folder).push(behind));
    reveal_with_fuel(Seq::filter, 7);
    assert(none.filter(p) =~= none);
    let s1 = none.push(front);
    let s2 = s1.push(key);
    let s3 = s2.push(between);
    let s4 = s3.push(folder);
    let s5 = s4.push(behind);
    assert(s1.drop_last() =~= none && s1.last() == front);
    assert(s1.filter(p) =~= none);
    assert(s2.drop_last() =~= s1 && s2.last() == key);
    assert(s2.filter(p) =~= seq![key]);
    assert(s3.drop_last() =~= s2 && s3.last() == between);
    assert(s3.filter(p) =~= seq![key]);
    assert(s4.drop_last() =~= s3 && s4.last() == folder);
    assert(s4.filter(p) =~= seq![key, folder]);
    assert(s5.drop_last() =~= s4 && s5.last() == behind);
    assert(s5.filter(p) =~= seq![key, folder]);
    assert(nonblank(parts) =~= seq![key, folder]);
}

/// The first line that names the game's folder counts.
pub proof fn law_first_install_line_counts(lines: Seq<Seq<char>>, i: int, from: int)
    requires
        0 <= from <= i < lines.len(),
        install_dir_in_line(lines[i]) is Some,
        forall|j: int| from <= j < i ==> install_dir_in_line(#[trigger] lines[j]) is None,
    ensures
        first_install_dir(lines, from) == install_dir_in_line(lines[i]),
    decreases i - from,
{
    if from < i {
        assert(install_dir_in_line(lines[from]) is None);
        law_first_install_line_counts(lines, i, from + 1);
    }
}

/// A text is read line by line, without the ends of the lines.
pub proof fn law_text_is_read_line_by_line(line: Seq<char>, rest: Seq<char>)
    requires
        !line.contains('\n'),
        line.len() == 0 || line[line.len() - 1] != '\r',
    ensures
        lines_of(line + seq!['\n'] + rest) == seq![line] + lines_of(rest),
        lines_of(line + seq!['\r', '\n'] + rest) == seq![line] + lines_of(rest),
        line.len() > 0 ==> lines_of(line) == seq![line],
        lines_of(Seq::empty()) == Seq::<Seq<char>>::empty(),
{
    let s = line + seq!['\n'] + rest;
    assert forall|k: int| 0 <= k < line.len() implies #[trigger] line[k] != '\n' by {
        assert(line.contains(line[k]));
    }
    assert forall|k: int| 0 <= k < line.len() implies #[trigger] s[k] != '\n' by {
        assert(s[k] == line[k]);
    }
    lemma_index_is(s, '\n', 0, line.len() as int);
    assert(s.subrange(0, line.len() as int) =~= line);
    assert(s.subrange((line.len() + 1) as int, s.len() as int) =~= rest);
    assert(strip_cr(line) =~= line);
    let t = line + seq!['\r', '\n'] + rest;
    let e = (line.len() + 1) as int;
    assert forall|k: int| 0 <= k < e implies #[trigger] t[k] != '\n' by {
        if k < line.len() {
            assert(t[k] == line[k]);
        }
    }
    lemma_index_is(t, '\n', 0, e);
    let front = t.subrange(0, e);
    assert(front =~= line.push('\r'));
    assert(strip_cr(front) =~= line);
    assert(t.subrange(e + 1, t.len() as int) =~= rest);
    lemma_index_is(line, '\n', 0, line.len() as int);
}

} // verus!
