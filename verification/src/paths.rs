//! Paths as texts with `/` between their parts: when two of them are the same.

use crate::text::{
    char_seqs, chars_of, same_chars, split_chars, split_on, string_of, texts,
};
use vstd::prelude::*;

verus! {

/// The first `n` parts without those that say nothing: empty ones, and a dot that
/// is not the beginning of the path.
pub open spec fn telling_parts(parts: Seq<Seq<char>>, n: nat) -> Seq<Seq<char>>
    decreases n,
{
    if n == 0 {
        Seq::empty()
    } else {
        let before = telling_parts(parts, (n - 1) as nat);
        let part = parts[n - 1];
        if part.len() == 0 || (n > 1 && part == seq!['.']) {
            before
        } else {
            before.push(part)
        }
    }
}

/// The parts of a path.
pub open spec fn path_parts(path: Seq<char>) -> Seq<Seq<char>> {
    telling_parts(split_on(path, '/'), split_on(path, '/').len())
}

pub open spec fn is_absolute(path: Seq<char>) -> bool {
    path.len() > 0 && path[0] == '/'
}

/// Whether two paths are the same: doubled slashes, slashes at the end and dots
/// make no difference.
pub open spec fn same_path(a: Seq<char>, b: Seq<char>) -> bool {
    is_absolute(a) == is_absolute(b) && path_parts(a) == path_parts(b)
}

/// Whether a path is one of some paths.
pub open spec fn lists_path(paths: Seq<Seq<char>>, path: Seq<char>) -> bool {
    exists|i: int| 0 <= i < paths.len() && same_path(#[trigger] paths[i], path)
}

/// A path of the machine with `/` between its parts. On Windows a backslash stands
/// between them too; elsewhere it is a character like any other.
pub open spec fn slashed(path: Seq<char>, windows: bool) -> Seq<char> {
    if windows {
        path.map_values(
            |c: char|
                if c == '\\' {
                    '/'
                } else {
                    c
                },
        )
    } else {
        path
    }
}

/// A path of the machine with `/` between its parts.
pub fn with_slashes(path: &str, windows: bool) -> (r: String)
    ensures
        r@ == slashed(path@, windows),
{
    if !windows {
        return path.to_owned();
    }
    let chars = chars_of(path);
    let n: usize = chars.len();
    let mut r: Vec<char> = Vec::new();
    let mut i: usize = 0;
    while i < n
        invariant
            i <= n == chars@.len(),
            chars@ == path@,
            r@ == slashed(path@, true).take(i as int),
        decreases n - i,
    {
        let c: char = chars[i];
        r.push(
            if c == '\\' {
                '/'
            } else {
                c
            },
        );
        i = i + 1;
        assert(slashed(path@, true).take(i as int).drop_last() =~= slashed(path@, true).take(
            i - 1,
        ));
        assert(r@ =~= slashed(path@, true).take(i as int));
    }
    assert(slashed(path@, true).take(n as int) =~= slashed(path@, true));
    string_of(r.as_slice())
}

fn find_parts(path: &[char]) -> (r: Vec<Vec<char>>)
    ensures
        char_seqs(r@) == path_parts(path@),
{
    let all = split_chars(path, '/');
    let ghost parts = char_seqs(all@);
    let n: usize = all.len();
    let mut r: Vec<Vec<char>> = Vec::new();
    let mut i: usize = 0;
    assert(char_seqs(r@) =~= telling_parts(parts, 0));
    while i < n
        invariant
            i <= n == all@.len(),
            parts == char_seqs(all@),
            char_seqs(r@) == telling_parts(parts, i as nat),
        decreases n - i,
    {
        assert(parts[i as int] == all@[i as int]@);
        let m: usize = all[i].len();
        let dot: bool = m == 1 && all[i][0] == '.';
        proof {
            if dot {
                assert(all@[i as int]@ =~= seq!['.']);
            }
        }
        if m > 0 && !(i > 0 && dot) {
            let ghost before = r@;
            let part = crate::text::char_range(all[i].as_slice(), 0, m);
            assert(part@ =~= all@[i as int]@);
            let ghost text = part@;
            r.push(part);
            assert(char_seqs(r@) =~= char_seqs(before).push(text));
        }
        i = i + 1;
    }
    r
}

/// Whether two paths are the same.
pub fn eq_path(a: &str, b: &str) -> (r: bool)
    ensures
        r == same_path(a@, b@),
{
    let x = chars_of(a);
    let y = chars_of(b);
    let x_absolute: bool = x.len() > 0 && x[0] == '/';
    let y_absolute: bool = y.len() > 0 && y[0] == '/';
    if x_absolute != y_absolute {
        return false;
    }
    let p = find_parts(x.as_slice());
    let q = find_parts(y.as_slice());
    let n: usize = p.len();
    if n != q.len() {
        assert(char_seqs(p@).len() != char_seqs(q@).len());
        return false;
    }
    let mut i: usize = 0;
    while i < n
        invariant
            i <= n == p@.len() == q@.len(),
            char_seqs(p@) == path_parts(a@),
            char_seqs(q@) == path_parts(b@),
            forall|k: int| 0 <= k < i ==> #[trigger] char_seqs(p@)[k] == char_seqs(q@)[k],
        decreases n - i,
    {
        if !same_chars(p[i].as_slice(), q[i].as_slice()) {
            assert(char_seqs(p@)[i as int] != char_seqs(q@)[i as int]);
            return false;
        }
        assert(char_seqs(p@)[i as int] == char_seqs(q@)[i as int]);
        i = i + 1;
    }
    assert(char_seqs(p@) =~= char_seqs(q@));
    true
}

/// Whether a path is one of some paths.
pub fn contains_path(paths: &Vec<String>, path: &str) -> (r: bool)
    ensures
        r == lists_path(texts(paths@), path@),
{
    let n: usize = paths.len();
    let mut i: usize = 0;
    while i < n
        invariant
            i <= n == paths@.len(),
            forall|k: int| 0 <= k < i ==> !same_path(#[trigger] texts(paths@)[k], path@),
        decreases n - i,
    {
        assert(texts(paths@)[i as int] == paths@[i as int]@);
        if eq_path(paths[i].as_str(), path) {
            return true;
        }
        i = i + 1;
    }
    false
}

/// The first part of a path that does not begin with a slash begins as the path
/// does.
pub proof fn lemma_first_part(path: Seq<char>)
    requires
        path.len() > 0,
        path[0] != '/',
    ensures
        path_parts(path).len() > 0,
        path_parts(path)[0].len() > 0,
        path_parts(path)[0][0] == path[0],
{
    let parts = split_on(path, '/');
    let i = crate::text::index_of_char(path, '/', 0);
    crate::text::lemma_index_of_char(path, '/', 0);
    assert(parts.len() > 0);
    assert(parts[0] =~= path.subrange(0, i));
    lemma_first_telling(parts, parts.len());
}

proof fn lemma_first_telling(parts: Seq<Seq<char>>, n: nat)
    requires
        1 <= n <= parts.len(),
        parts[0].len() > 0,
    ensures
        telling_parts(parts, n).len() > 0,
        telling_parts(parts, n)[0] == parts[0],
    decreases n,
{
    if n > 1 {
        lemma_first_telling(parts, (n - 1) as nat);
    } else {
        assert(telling_parts(parts, 0).len() == 0);
    }
}

/// A slash more at the end of a path makes no difference.
pub proof fn law_trailing_slash_says_nothing(path: Seq<char>)
    requires
        path.len() > 0,
    ensures
        same_path(path.push('/'), path),
{
    let longer = path.push('/');
    assert(longer[0] == path[0]);
    lemma_split_slash(path);
    let parts = split_on(path, '/');
    assert(split_on(longer, '/') =~= parts.push(Seq::empty()));
    lemma_same_parts(parts, parts.push(Seq::empty()), parts.len());
}

proof fn lemma_same_parts(a: Seq<Seq<char>>, b: Seq<Seq<char>>, n: nat)
    requires
        n <= a.len(),
        n <= b.len(),
        forall|i: int| 0 <= i < n ==> a[i] == b[i],
    ensures
        telling_parts(a, n) == telling_parts(b, n),
    decreases n,
{
    if n > 0 {
        lemma_same_parts(a, b, (n - 1) as nat);
    }
}

proof fn lemma_split_slash(s: Seq<char>)
    ensures
        split_on(s.push('/'), '/') == split_on(s, '/').push(Seq::empty()),
    decreases s.len(),
{
    let t = s.push('/');
    crate::text::lemma_index_of_char(s, '/', 0);
    crate::text::lemma_index_of_char(t, '/', 0);
    let i = crate::text::index_of_char(s, '/', 0);
    let j = crate::text::index_of_char(t, '/', 0);
    if i < s.len() {
        assert(t[i] == s[i]);
        if j < i {
            assert(t[j] == s[j]);
        }
        assert(i == j);
        let rest = s.subrange(i + 1, s.len() as int);
        assert(t.subrange(i + 1, t.len() as int) =~= rest.push('/'));
        assert(t.subrange(0, i) =~= s.subrange(0, i));
        lemma_split_slash(rest);
        assert(split_on(t, '/') =~= split_on(s, '/').push(Seq::empty()));
    } else {
        assert(t[s.len() as int] == '/');
        if j < s.len() {
            assert(t[j] == s[j]);
        }
        assert(j == s.len());
        let none = t.subrange(j + 1, t.len() as int);
        assert(none =~= Seq::<char>::empty());
        crate::text::lemma_index_of_char(none, '/', 0);
        assert(split_on(none, '/') =~= seq![Seq::<char>::empty()]);
        assert(t.subrange(0, j) =~= s);
        assert(split_on(t, '/') =~= split_on(s, '/').push(Seq::empty()));
    }
}

/// On Windows both separators make the same path.
pub proof fn law_separators_are_the_same_on_windows(path: Seq<char>)
    ensures
        !slashed(path, true).contains('\\'),
        slashed(slashed(path, true), true) == slashed(path, true),
        slashed(path, false) == path,
{
    let once = slashed(path, true);
    assert(forall|i: int| 0 <= i < once.len() ==> #[trigger] once[i] != '\\');
    assert(slashed(once, true) =~= once);
}

} // verus!
