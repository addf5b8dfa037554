//! Texts as lines: taking a text apart at a separator and putting it together
//! again.

use crate::text::{
    char_range, char_seqs, contains_text, find_chars, find_from, has_text, lemma_find_from,
    lemma_find_shift, push_chars,
};
use vstd::prelude::*;

verus! {

/// The parts of `s` between the occurrences of `sep`.
pub open spec fn split_by(s: Seq<char>, sep: Seq<char>) -> Seq<Seq<char>>
    decreases s.len(),
{
    if sep.len() == 0 {
        seq![s]
    } else {
        match find_from(s, sep, 0) {
            None => seq![s],
            Some(i) => {
                proof {
                    lemma_find_from(s, sep, 0);
                }
                seq![s.subrange(0, i)] + split_by(s.subrange(i + sep.len(), s.len() as int), sep)
            },
        }
    }
}

/// The first `n` parts with `sep` between them.
pub open spec fn joined_by(parts: Seq<Seq<char>>, sep: Seq<char>, n: nat) -> Seq<char>
    decreases n,
{
    if n == 0 {
        Seq::empty()
    } else if n == 1 {
        parts[0]
    } else {
        joined_by(parts, sep, (n - 1) as nat) + sep + parts[n - 1]
    }
}

/// The parts of `s` between the occurrences of `sep`.
pub fn split_text(s: &[char], sep: &[char]) -> (r: Vec<Vec<char>>)
    requires
        sep@.len() > 0,
    ensures
        char_seqs(r@) == split_by(s@, sep@),
{
    let n: usize = s.len();
    let mut r: Vec<Vec<char>> = Vec::new();
    let mut start: usize = 0;
    assert(s@.subrange(0, n as int) =~= s@);
    assert(char_seqs(r@) + split_by(s@, sep@) =~= split_by(s@, sep@));
    loop
        invariant
            start <= n == s@.len(),
            sep@.len() > 0,
            split_by(s@, sep@) == char_seqs(r@) + split_by(
                s@.subrange(start as int, n as int),
                sep@,
            ),
        decreases n - start,
    {
        let ghost before = char_seqs(r@);
        let ghost rest = s@.subrange(start as int, n as int);
        proof {
            lemma_find_shift(s@, sep@, start as int, start as int);
            lemma_find_from(s@, sep@, start as int);
        }
        match find_chars(s, sep, start) {
            None => {
                r.push(char_range(s, start, n));
                assert(char_seqs(r@) =~= before + seq![rest]);
                return r;
            },
            Some(i) => {
                r.push(char_range(s, start, i));
                start = i + sep.len();
                proof {
                    let at = i - (n - rest.len());
                    assert(rest.subrange(0, at) =~= r@.last()@);
                    assert(rest.subrange(at + sep@.len(), rest.len() as int) =~= s@.subrange(
                        start as int,
                        n as int,
                    ));
                    assert(char_seqs(r@) =~= before + seq![r@.last()@]);
                    assert(split_by(s@, sep@) =~= char_seqs(r@) + split_by(
                        s@.subrange(start as int, n as int),
                        sep@,
                    ));
                }
            },
        }
    }
}

/// The parts with `sep` between them.
pub fn join_text(parts: &Vec<Vec<char>>, sep: &[char]) -> (r: Vec<char>)
    ensures
        r@ == joined_by(char_seqs(parts@), sep@, parts@.len()),
{
    let n: usize = parts.len();
    let mut r: Vec<char> = Vec::new();
    let mut i: usize = 0;
    while i < n
        invariant
            i <= n == parts@.len(),
            r@ == joined_by(char_seqs(parts@), sep@, i as nat),
        decreases n - i,
    {
        let ghost before = r@;
        assert(char_seqs(parts@)[i as int] == parts@[i as int]@);
        if i > 0 {
            push_chars(&mut r, sep);
        }
        push_chars(&mut r, parts[i].as_slice());
        i = i + 1;
        assert(r@ =~= joined_by(char_seqs(parts@), sep@, i as nat));
    }
    r
}

/// The first line from `i` on that has `p` in it.
pub open spec fn first_with(lines: Seq<Seq<char>>, p: Seq<char>, i: int) -> Option<int>
    decreases lines.len() - i,
{
    if i < 0 || i >= lines.len() {
        None
    } else if contains_text(lines[i], p) {
        Some(i)
    } else {
        first_with(lines, p, i + 1)
    }
}

/// The first line that has `p` in it.
pub fn find_line(lines: &Vec<Vec<char>>, p: &[char]) -> (r: Option<usize>)
    ensures
        match r {
            Some(i) => first_with(char_seqs(lines@), p@, 0) == Some(i as int) && i < lines@.len(),
            None => first_with(char_seqs(lines@), p@, 0) is None,
        },
{
    let n: usize = lines.len();
    let mut i: usize = 0;
    while i < n
        invariant
            i <= n == lines@.len(),
            first_with(char_seqs(lines@), p@, 0) == first_with(char_seqs(lines@), p@, i as int),
        decreases n - i,
    {
        assert(char_seqs(lines@)[i as int] == lines@[i as int]@);
        if has_text(lines[i].as_slice(), p) {
            return Some(i);
        }
        i = i + 1;
    }
    None
}

pub proof fn lemma_joined_front(first: Seq<char>, parts: Seq<Seq<char>>, sep: Seq<char>, n: nat)
    requires
        1 <= n <= parts.len(),
    ensures
        joined_by(seq![first] + parts, sep, n + 1) == first + sep + joined_by(parts, sep, n),
    decreases n,
{
    let all = seq![first] + parts;
    assert(all[n as int] == parts[n - 1]);
    if n == 1 {
        assert(joined_by(all, sep, 1) == first);
        assert(joined_by(parts, sep, 1) == parts[0]);
    } else {
        lemma_joined_front(first, parts, sep, (n - 1) as nat);
    }
    assert(joined_by(all, sep, n + 1) =~= first + sep + joined_by(parts, sep, n));
}

/// Splitting and joining with the same separator gives the text back.
pub proof fn law_split_text_joins_back(s: Seq<char>, sep: Seq<char>)
    ensures
        split_by(s, sep).len() >= 1,
        joined_by(split_by(s, sep), sep, split_by(s, sep).len()) == s,
    decreases s.len(),
{
    if sep.len() > 0 {
        lemma_find_from(s, sep, 0);
        match find_from(s, sep, 0) {
            None => {},
            Some(i) => {
                let rest = s.subrange(i + sep.len(), s.len() as int);
                law_split_text_joins_back(rest, sep);
                let parts = split_by(rest, sep);
                lemma_joined_front(s.subrange(0, i), parts, sep, parts.len());
                assert(s.subrange(0, i) + sep + rest =~= s);
            },
        }
    }
}

} // verus!
