//! Characters and strings.

use vstd::prelude::*;

verus! {

/// `char` after ASCII lower-casing.
pub open spec fn lower(c: char) -> char {
    if 'A' <= c <= 'Z' {
        (c as u32 + 32) as char
    } else {
        c
    }
}

/// A text after ASCII lower-casing.
pub open spec fn lower_all(s: Seq<char>) -> Seq<char> {
    s.map_values(|c: char| lower(c))
}

pub fn lower_char(c: char) -> (r: char)
    ensures
        r == lower(c),
{
    if 'A' <= c && c <= 'Z' {
        let b: u8 = c as u8;
        (b + 32) as char
    } else {
        c
    }
}

/// `String::push`: the text with one character appended.
pub assume_specification[ String::push ](s: &mut String, c: char)
    ensures
        final(s)@ == old(s)@.push(c),
;

/// The characters of a text.
pub fn chars_of(s: &str) -> (r: Vec<char>)
    ensures
        r@ == s@,
{
    let mut r: Vec<char> = Vec::new();
    for c in it: s.chars()
        invariant
            r@ == it.seq().take(it.index()),
            it.seq() == s@,
    {
        r.push(c);
        assert(r@ =~= it.seq().take(it.index() + 1));
    }
    assert(r@ =~= s@);
    r
}

/// The text made of some characters.
pub fn string_of(chars: &[char]) -> (r: String)
    ensures
        r@ == chars@,
{
    let mut r = String::new();
    let n: usize = chars.len();
    let mut i: usize = 0;
    while i < n
        invariant
            i <= n == chars@.len(),
            r@ == chars@.take(i as int),
        decreases n - i,
    {
        r.push(chars[i]);
        i = i + 1;
        assert(r@ =~= chars@.take(i as int));
    }
    assert(r@ =~= chars@);
    r
}

/// `String::from_utf8`: the text whose UTF-8 encoding is `b`, if there is one.
#[verifier::external_body]
pub(crate) fn string_from_utf8(b: Vec<u8>) -> (r: Option<String>)
    ensures
        r is Some <==> vstd::utf8::valid_utf8(b@),
        r is Some ==> vstd::utf8::encode_utf8(r->0@) == b@,
{
    String::from_utf8(b).ok()
}

/// The text that `b` encodes is the one that `decode_utf8` gives.
pub fn decode_bytes(b: Vec<u8>) -> (r: Option<String>)
    ensures
        r is Some <==> vstd::utf8::valid_utf8(b@),
        r is Some ==> r->0@ == vstd::utf8::decode_utf8(b@),
{
    let ghost view = b@;
    let r = string_from_utf8(b);
    proof {
        if r is Some {
            vstd::utf8::encode_utf8_decode_utf8(r->0@);
        }
    }
    r
}

/// The contents of some strings.
pub open spec fn texts(v: Seq<String>) -> Seq<Seq<char>> {
    v.map_values(|s: String| s@)
}

/// Whether `p` stands in `s` at position `i`.
pub open spec fn occurs_at(s: Seq<char>, i: int, p: Seq<char>) -> bool {
    0 <= i && i + p.len() <= s.len() && s.subrange(i, i + p.len()) == p
}

pub open spec fn starts_with(s: Seq<char>, p: Seq<char>) -> bool {
    occurs_at(s, 0, p)
}

pub open spec fn ends_with(s: Seq<char>, p: Seq<char>) -> bool {
    occurs_at(s, s.len() - p.len(), p)
}

pub open spec fn contains_text(s: Seq<char>, p: Seq<char>) -> bool {
    exists|i: int| occurs_at(s, i, p)
}

/// The first position from `i` on at which `p` stands in `s`.
pub open spec fn find_from(s: Seq<char>, p: Seq<char>, i: int) -> Option<int>
    decreases s.len() - i + 1,
{
    if i < 0 || i + p.len() > s.len() {
        None
    } else if occurs_at(s, i, p) {
        Some(i)
    } else {
        find_from(s, p, i + 1)
    }
}

pub proof fn lemma_find_from(s: Seq<char>, p: Seq<char>, i: int)
    requires
        0 <= i,
    ensures
        match find_from(s, p, i) {
            Some(j) => i <= j && occurs_at(s, j, p) && forall|k: int|
                i <= k < j ==> !occurs_at(s, k, p),
            None => forall|k: int| i <= k ==> !occurs_at(s, k, p),
        },
    decreases s.len() - i + 1,
{
    if i + p.len() <= s.len() && !occurs_at(s, i, p) {
        lemma_find_from(s, p, i + 1);
    }
}

/// Whether `p` stands in `s` at position `i`.
pub fn matches_at(s: &[char], i: usize, p: &[char]) -> (r: bool)
    ensures
        r == occurs_at(s@, i as int, p@),
{
    let n: usize = p.len();
    if i > s.len() || s.len() - i < n {
        return false;
    }
    let mut k: usize = 0;
    while k < n
        invariant
            k <= n == p@.len(),
            i + n <= s@.len() <= usize::MAX,
            forall|j: int| 0 <= j < k ==> s@[i + j] == p@[j],
        decreases n - k,
    {
        if s[i + k] != p[k] {
            assert(s@.subrange(i as int, i + n)[k as int] != p@[k as int]);
            return false;
        }
        k = k + 1;
    }
    assert(s@.subrange(i as int, i + n) =~= p@);
    true
}

/// The first position from `i` on at which `p` stands in `s`.
pub fn find_chars(s: &[char], p: &[char], i: usize) -> (r: Option<usize>)
    ensures
        match r {
            Some(j) => find_from(s@, p@, i as int) == Some(j as int),
            None => find_from(s@, p@, i as int) is None,
        },
{
    let mut j: usize = i;
    let total: usize = s.len();
    while j <= total && total - j >= p.len()
        invariant
            total == s@.len(),
            i <= j,
            find_from(s@, p@, i as int) == find_from(s@, p@, j as int),
        decreases total + 1 - j,
    {
        if matches_at(s, j, p) {
            return Some(j);
        }
        if j == total {
            assert(s@.subrange(j as int, j as int) =~= p@);
            return None;
        }
        j = j + 1;
    }
    None
}

pub fn has_prefix(s: &[char], p: &[char]) -> (r: bool)
    ensures
        r == starts_with(s@, p@),
{
    matches_at(s, 0, p)
}

pub fn has_suffix(s: &[char], p: &[char]) -> (r: bool)
    ensures
        r == ends_with(s@, p@),
{
    s.len() >= p.len() && matches_at(s, s.len() - p.len(), p)
}

pub fn has_text(s: &[char], p: &[char]) -> (r: bool)
    ensures
        r == contains_text(s@, p@),
{
    proof {
        lemma_find_from(s@, p@, 0);
    }
    match find_chars(s, p, 0) {
        Some(_) => true,
        None => false,
    }
}

/// Whether two character sequences are the same.
pub fn same_chars(a: &[char], b: &[char]) -> (r: bool)
    ensures
        r == (a@ == b@),
{
    proof {
        if a@.len() == b@.len() {
            assert(a@.subrange(0, a@.len() as int) =~= a@);
        }
    }
    a.len() == b.len() && matches_at(a, 0, b)
}

/// Whether two texts are the same.
pub fn same_text(a: &str, b: &str) -> (r: bool)
    ensures
        r == (a@ == b@),
{
    proof {
        vstd::utf8::encode_utf8_decode_utf8(a@);
        vstd::utf8::encode_utf8_decode_utf8(b@);
    }
    crate::bytes::same_bytes(a.as_bytes(), b.as_bytes())
}

/// The characters of `s` from `start` up to `end`.
pub fn char_range(s: &[char], start: usize, end: usize) -> (r: Vec<char>)
    requires
        start <= end <= s@.len(),
    ensures
        r@ == s@.subrange(start as int, end as int),
{
    vstd::slice::slice_to_vec(vstd::slice::slice_subrange(s, start, end))
}

/// Appends characters.
pub fn push_chars(out: &mut Vec<char>, s: &[char])
    ensures
        final(out)@ == old(out)@ + s@,
{
    let ghost start = out@;
    out.extend_from_slice(s);
    assert(out@ =~= start + s@);
}

/// A text after ASCII lower-casing.
pub fn lower_chars(s: &[char]) -> (r: Vec<char>)
    ensures
        r@ == lower_all(s@),
{
    let n: usize = s.len();
    let mut out: Vec<char> = Vec::new();
    let mut i: usize = 0;
    while i < n
        invariant
            i <= n == s@.len(),
            out@ == lower_all(s@.take(i as int)),
        decreases n - i,
    {
        out.push(lower_char(s[i]));
        i = i + 1;
        assert(out@ =~= lower_all(s@.take(i as int)));
    }
    assert(s@.take(n as int) =~= s@);
    out
}

/// Whether one of the texts is `s`.
pub fn contains_string(v: &Vec<String>, s: &str) -> (r: bool)
    ensures
        r == texts(v@).contains(s@),
{
    let n: usize = v.len();
    let mut i: usize = 0;
    while i < n
        invariant
            i <= n == v@.len(),
            forall|k: int| 0 <= k < i ==> (#[trigger] v@[k])@ != s@,
        decreases n - i,
    {
        if same_text(v[i].as_str(), s) {
            assert(texts(v@)[i as int] == s@);
            return true;
        }
        i = i + 1;
    }
    proof {
        if texts(v@).contains(s@) {
            let k = choose|k: int| 0 <= k < texts(v@).len() && texts(v@)[k] == s@;
            assert(v@[k]@ == s@);
        }
    }
    false
}

pub open spec fn digit_char(d: nat) -> char {
    (48 + d) as char
}

/// The decimal digits of a number.
pub open spec fn decimal(n: nat) -> Seq<char>
    decreases n,
{
    if n < 10 {
        seq![digit_char(n)]
    } else {
        decimal(n / 10).push(digit_char(n % 10))
    }
}

fn push_decimal(out: &mut Vec<char>, n: u64)
    ensures
        final(out)@ == old(out)@ + decimal(n as nat),
    decreases n,
{
    let ghost start = out@;
    if n >= 10 {
        push_decimal(out, n / 10);
    }
    let d: u8 = (n % 10) as u8;
    out.push((48 + d) as char);
    assert(out@ =~= start + decimal(n as nat));
}

/// The decimal digits of a number.
pub fn decimal_chars(n: u64) -> (r: Vec<char>)
    ensures
        r@ == decimal(n as nat),
{
    let mut out: Vec<char> = Vec::new();
    push_decimal(&mut out, n);
    assert(out@ =~= decimal(n as nat));
    out
}

/// Different numbers have different digits.
pub proof fn lemma_decimal_injective(a: nat, b: nat)
    requires
        decimal(a) == decimal(b),
    ensures
        a == b,
    decreases a,
{
    assert(decimal(a).last() == digit_char(a % 10));
    assert(decimal(b).last() == digit_char(b % 10));
    assert(a % 10 == b % 10);
    if a >= 10 && b >= 10 {
        assert(decimal(a).drop_last() =~= decimal(a / 10));
        assert(decimal(b).drop_last() =~= decimal(b / 10));
        lemma_decimal_injective(a / 10, b / 10);
    } else if a >= 10 {
        lemma_decimal_nonempty(a / 10);
        assert(decimal(a).len() >= 2);
        assert(decimal(b).len() == 1);
    } else if b >= 10 {
        lemma_decimal_nonempty(b / 10);
        assert(decimal(b).len() >= 2);
        assert(decimal(a).len() == 1);
    }
}

pub proof fn lemma_decimal_nonempty(n: nat)
    ensures
        decimal(n).len() >= 1,
{
}

pub open spec fn hex_digit(d: nat) -> char {
    if d < 10 {
        (48 + d) as char
    } else {
        (87 + d) as char
    }
}

/// The last `n` hexadecimal digits of a number, with zeros in front.
pub open spec fn hex_digits(v: nat, n: nat) -> Seq<char>
    decreases n,
{
    if n == 0 {
        Seq::empty()
    } else {
        hex_digits(v / 16, (n - 1) as nat).push(hex_digit(v % 16))
    }
}

/// Appends the last `n` hexadecimal digits of a number, with zeros in front.
pub fn push_hex(out: &mut Vec<char>, v: u64, n: usize)
    ensures
        final(out)@ == old(out)@ + hex_digits(v as nat, n as nat),
    decreases n,
{
    let ghost start = out@;
    if n > 0 {
        push_hex(out, v / 16, n - 1);
        let d: u8 = (v % 16) as u8;
        if d < 10 {
            out.push((48 + d) as char);
        } else {
            out.push((87 + d) as char);
        }
    }
    assert(out@ =~= start + hex_digits(v as nat, n as nat));
}

/// The characters with Unicode's `White_Space` property.
pub open spec fn unicode_whitespace(c: char) -> bool {
    let v = c as u32;
    0x9 <= v <= 0xd || v == 0x20 || v == 0x85 || v == 0xa0 || v == 0x1680 || 0x2000 <= v <= 0x200a
        || v == 0x2028 || v == 0x2029 || v == 0x202f || v == 0x205f || v == 0x3000
}

/// `char::is_whitespace`: whether the character has Unicode's `White_Space`
/// property, which the listed characters have and no others.
#[verifier::external_body]
pub(crate) fn is_whitespace(c: char) -> (r: bool)
    ensures
        r == unicode_whitespace(c),
{
    c.is_whitespace()
}

/// Whether a text is empty or white space only.
pub open spec fn blank(s: Seq<char>) -> bool {
    forall|i: int| 0 <= i < s.len() ==> unicode_whitespace(#[trigger] s[i])
}

pub fn is_blank(s: &[char]) -> (r: bool)
    ensures
        r == blank(s@),
{
    let n: usize = s.len();
    let mut i: usize = 0;
    while i < n
        invariant
            i <= n == s@.len(),
            forall|k: int| 0 <= k < i ==> unicode_whitespace(#[trigger] s@[k]),
        decreases n - i,
    {
        if !is_whitespace(s[i]) {
            return false;
        }
        i = i + 1;
    }
    true
}

/// The first position from `i` on that holds `c`, or the length.
pub open spec fn index_of_char(s: Seq<char>, c: char, i: int) -> int
    decreases s.len() - i,
{
    if i < 0 || i >= s.len() {
        s.len() as int
    } else if s[i] == c {
        i
    } else {
        index_of_char(s, c, i + 1)
    }
}

pub proof fn lemma_index_of_char(s: Seq<char>, c: char, i: int)
    requires
        0 <= i <= s.len(),
    ensures
        i <= index_of_char(s, c, i) <= s.len(),
        index_of_char(s, c, i) < s.len() ==> s[index_of_char(s, c, i)] == c,
        forall|k: int| i <= k < index_of_char(s, c, i) ==> s[k] != c,
    decreases s.len() - i,
{
    if i < s.len() && s[i] != c {
        lemma_index_of_char(s, c, i + 1);
    }
}

pub fn position_of_char(s: &[char], c: char, i: usize) -> (r: usize)
    requires
        i <= s@.len(),
    ensures
        r == index_of_char(s@, c, i as int),
        i <= r <= s@.len(),
{
    proof {
        lemma_index_of_char(s@, c, i as int);
    }
    let n: usize = s.len();
    let mut k: usize = i;
    while k < n
        invariant
            i <= k <= n == s@.len(),
            index_of_char(s@, c, i as int) == index_of_char(s@, c, k as int),
        decreases n - k,
    {
        if s[k] == c {
            return k;
        }
        k = k + 1;
    }
    k
}

/// The parts of `s` between the occurrences of `c`.
pub open spec fn split_on(s: Seq<char>, c: char) -> Seq<Seq<char>>
    decreases s.len(),
    via split_on_decreases
{
    let i = index_of_char(s, c, 0);
    if i >= s.len() {
        seq![s]
    } else {
        seq![s.subrange(0, i)] + split_on(s.subrange(i + 1, s.len() as int), c)
    }
}

#[via_fn]
proof fn split_on_decreases(s: Seq<char>, c: char) {
    lemma_index_of_char(s, c, 0);
}

/// The contents of some character vectors.
pub open spec fn char_seqs(v: Seq<Vec<char>>) -> Seq<Seq<char>> {
    v.map_values(|x: Vec<char>| x@)
}

/// The parts of `s` between the occurrences of `c`.
pub fn split_chars(s: &[char], c: char) -> (r: Vec<Vec<char>>)
    ensures
        char_seqs(r@) == split_on(s@, c),
{
    let n: usize = s.len();
    let mut r: Vec<Vec<char>> = Vec::new();
    let mut start: usize = 0;
    assert(s@.subrange(0, n as int) =~= s@);
    loop
        invariant
            start <= n == s@.len(),
            split_on(s@, c) == char_seqs(r@) + split_on(s@.subrange(start as int, n as int), c),
        decreases n - start,
    {
        let ghost rest = s@.subrange(start as int, n as int);
        proof {
            lemma_index_of_char(rest, c, 0);
            lemma_index_shift(s@, c, start as int, start as int);
        }
        let end: usize = position_of_char(s, c, start);
        let part = char_range(s, start, end);
        let ghost before = r@;
        r.push(part);
        if end == n {
            assert(part@ =~= rest);
            assert(char_seqs(r@) =~= char_seqs(before) + seq![rest]);
            return r;
        }
        proof {
            let i = end - start;
            assert(rest.subrange(0, i) =~= part@);
            assert(rest.subrange(i + 1, rest.len() as int) =~= s@.subrange(end + 1, n as int));
            assert(char_seqs(r@) =~= char_seqs(before) + seq![part@]);
            assert(split_on(s@, c) =~= char_seqs(r@) + split_on(
                s@.subrange(end + 1, n as int),
                c,
            ));
        }
        start = end + 1;
    }
}

pub proof fn lemma_index_shift(s: Seq<char>, c: char, start: int, i: int)
    requires
        0 <= start <= i <= s.len(),
    ensures
        index_of_char(s, c, i) == start + index_of_char(
            s.subrange(start, s.len() as int),
            c,
            i - start,
        ),
    decreases s.len() - i,
{
    if i < s.len() && s[i] != c {
        lemma_index_shift(s, c, start, i + 1);
    }
}

/// A line without the carriage return that belongs to its line feed.
pub open spec fn strip_cr(s: Seq<char>) -> Seq<char> {
    if s.len() > 0 && s.last() == '\r' {
        s.drop_last()
    } else {
        s
    }
}

/// The lines of a text. A line ends in a line feed, with or without a carriage
/// return in front; the last line need not end in one.
pub open spec fn lines_of(s: Seq<char>) -> Seq<Seq<char>>
    decreases s.len(),
    via lines_of_decreases
{
    let i = index_of_char(s, '\n', 0);
    if s.len() == 0 {
        Seq::empty()
    } else if i >= s.len() {
        seq![s]
    } else {
        seq![strip_cr(s.subrange(0, i))] + lines_of(s.subrange(i + 1, s.len() as int))
    }
}

#[via_fn]
proof fn lines_of_decreases(s: Seq<char>) {
    lemma_index_of_char(s, '\n', 0);
}

/// The lines of a text.
pub fn split_lines(s: &[char]) -> (r: Vec<Vec<char>>)
    ensures
        char_seqs(r@) == lines_of(s@),
{
    let n: usize = s.len();
    let mut r: Vec<Vec<char>> = Vec::new();
    let mut start: usize = 0;
    assert(s@.subrange(0, n as int) =~= s@);
    assert(lines_of(s@) =~= char_seqs(r@) + lines_of(s@));
    while start < n
        invariant
            start <= n == s@.len(),
            lines_of(s@) == char_seqs(r@) + lines_of(s@.subrange(start as int, n as int)),
        decreases n - start,
    {
        let ghost rest = s@.subrange(start as int, n as int);
        proof {
            lemma_index_of_char(rest, '\n', 0);
            lemma_index_shift(s@, '\n', start as int, start as int);
        }
        let end: usize = position_of_char(s, '\n', start);
        let ghost before = r@;
        if end == n {
            let part = char_range(s, start, end);
            assert(part@ =~= rest);
            r.push(part);
            assert(char_seqs(r@) =~= char_seqs(before) + seq![rest]);
            assert(lines_of(s@) =~= char_seqs(r@));
            return r;
        }
        let mut line_end: usize = end;
        if end > start && s[end - 1] == '\r' {
            line_end = end - 1;
        }
        let part = char_range(s, start, line_end);
        proof {
            let i = end - start;
            let full = rest.subrange(0, i);
            assert(full.len() > 0 ==> full.last() == s@[end - 1]);
            assert(part@ =~= strip_cr(full));
            assert(rest.subrange(i + 1, rest.len() as int) =~= s@.subrange(end + 1, n as int));
        }
        let ghost line = part@;
        r.push(part);
        proof {
            assert(char_seqs(r@) =~= char_seqs(before) + seq![line]);
            assert(lines_of(s@) =~= char_seqs(r@) + lines_of(s@.subrange(end + 1, n as int)));
        }
        start = end + 1;
    }
    assert(s@.subrange(start as int, n as int) =~= Seq::<char>::empty());
    assert(lines_of(s@) =~= char_seqs(r@));
    r
}

/// `s` with `to` in front of each character and at the end.
pub open spec fn spread(s: Seq<char>, to: Seq<char>) -> Seq<char>
    decreases s.len(),
{
    if s.len() == 0 {
        to
    } else {
        spread(s.drop_last(), to).push(s.last()) + to
    }
}

/// `s` with every occurrence of `from`, taken from left to right, replaced by
/// `to`. The empty text occurs in front of each character and at the end.
pub open spec fn replaced(s: Seq<char>, from: Seq<char>, to: Seq<char>) -> Seq<char>
    decreases s.len(),
    via replaced_decreases
{
    if from.len() == 0 {
        spread(s, to)
    } else {
        match find_from(s, from, 0) {
            None => s,
            Some(i) => s.subrange(0, i) + to + replaced(
                s.subrange(i + from.len(), s.len() as int),
                from,
                to,
            ),
        }
    }
}

#[via_fn]
proof fn replaced_decreases(s: Seq<char>, from: Seq<char>, to: Seq<char>) {
    lemma_find_from(s, from, 0);
}

pub proof fn lemma_find_shift(s: Seq<char>, p: Seq<char>, start: int, i: int)
    requires
        0 <= start <= i,
        start <= s.len(),
    ensures
        find_from(s, p, i) == match find_from(s.subrange(start, s.len() as int), p, i - start) {
            Some(j) => Some(start + j),
            None => None,
        },
    decreases s.len() - i + 1,
{
    let rest = s.subrange(start, s.len() as int);
    if i + p.len() <= s.len() {
        assert(rest.subrange(i - start, i - start + p.len()) =~= s.subrange(i, i + p.len()));
        if !occurs_at(s, i, p) {
            lemma_find_shift(s, p, start, i + 1);
        }
    }
}

/// `s` with every occurrence of `from` replaced by `to`.
pub fn replace_chars(s: &[char], from: &[char], to: &[char]) -> (r: Vec<char>)
    ensures
        r@ == replaced(s@, from@, to@),
{
    let n: usize = s.len();
    let mut r: Vec<char> = Vec::new();
    if from.len() == 0 {
        push_chars(&mut r, to);
        let mut k: usize = 0;
        assert(r@ =~= spread(s@.take(0), to@));
        while k < n
            invariant
                k <= n == s@.len(),
                r@ == spread(s@.take(k as int), to@),
            decreases n - k,
        {
            r.push(s[k]);
            push_chars(&mut r, to);
            k = k + 1;
            assert(s@.take(k as int).drop_last() =~= s@.take(k - 1));
        }
        assert(s@.take(n as int) =~= s@);
        return r;
    }
    let mut start: usize = 0;
    assert(s@.subrange(0, n as int) =~= s@);
    assert(replaced(s@, from@, to@) =~= r@ + replaced(s@, from@, to@));
    loop
        invariant
            start <= n == s@.len(),
            from@.len() > 0,
            replaced(s@, from@, to@) == r@ + replaced(
                s@.subrange(start as int, n as int),
                from@,
                to@,
            ),
        decreases n - start,
    {
        let ghost rest = s@.subrange(start as int, n as int);
        proof {
            lemma_find_shift(s@, from@, start as int, start as int);
            lemma_find_from(s@, from@, start as int);
        }
        match find_chars(s, from, start) {
            None => {
                let tail = char_range(s, start, n);
                push_chars(&mut r, tail.as_slice());
                return r;
            },
            Some(j) => {
                let ghost before = r@;
                let part = char_range(s, start, j);
                push_chars(&mut r, part.as_slice());
                push_chars(&mut r, to);
                let next: usize = j + from.len();
                proof {
                    let i = j - start;
                    assert(rest.subrange(0, i) =~= part@);
                    assert(rest.subrange(i + from@.len(), rest.len() as int) =~= s@.subrange(
                        next as int,
                        n as int,
                    ));
                    assert(replaced(s@, from@, to@) =~= r@ + replaced(
                        s@.subrange(next as int, n as int),
                        from@,
                        to@,
                    ));
                }
                start = next;
            },
        }
    }
}

/// What `str::to_lowercase` makes of a text.
pub uninterp spec fn unicode_lowercase(s: Seq<char>) -> Seq<char>;

/// `str::to_lowercase`: the text in lower case, after Unicode. How Unicode maps
/// each character is left to the standard library.
#[verifier::external_body]
pub(crate) fn to_lowercase(s: &str) -> (r: String)
    ensures
        r@ == unicode_lowercase(s@),
{
    s.to_lowercase()
}

} // verus!
