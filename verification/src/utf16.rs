//! UTF-16 text.

use crate::bytes::{le_at, lemma_int_bytes, push_u16, read_u16_at, u16_bytes};
use vstd::prelude::*;

verus! {

/// `char::from_u32`: the character with that number, if there is one. Surrogates
/// and numbers beyond the last plane have none.
pub assume_specification[ char::from_u32 ](i: u32) -> (r: Option<char>)
    ensures
        r is Some <==> (i <= 0xD7FF || 0xE000 <= i <= 0x10FFFF),
        r is Some ==> r->0 as u32 == i,
;

/// The units of one character.
pub open spec fn char_units(c: char) -> Seq<u16> {
    let v = c as u32;
    if v < 0x10000 {
        seq![v as u16]
    } else {
        let w = v - 0x10000;
        seq![(0xD800 + w / 0x400) as u16, (0xDC00 + w % 0x400) as u16]
    }
}

/// The units of a text.
pub open spec fn utf16_units(s: Seq<char>) -> Seq<u16>
    decreases s.len(),
{
    if s.len() == 0 {
        Seq::empty()
    } else {
        char_units(s[0]) + utf16_units(s.subrange(1, s.len() as int))
    }
}

pub open spec fn is_high(u: u16) -> bool {
    0xD800 <= u <= 0xDBFF
}

pub open spec fn is_low(u: u16) -> bool {
    0xDC00 <= u <= 0xDFFF
}

/// The text that some units spell, if they are valid UTF-16.
pub open spec fn utf16_text(u: Seq<u16>) -> Option<Seq<char>>
    decreases u.len(),
{
    if u.len() == 0 {
        Some(Seq::empty())
    } else if !is_high(u[0]) && !is_low(u[0]) {
        match utf16_text(u.subrange(1, u.len() as int)) {
            Some(rest) => Some(seq![u[0] as char] + rest),
            None => None,
        }
    } else if is_high(u[0]) && u.len() >= 2 && is_low(u[1]) {
        match utf16_text(u.subrange(2, u.len() as int)) {
            Some(rest) => Some(
                seq![(0x10000 + (u[0] - 0xD800) * 0x400 + (u[1] - 0xDC00)) as char] + rest,
            ),
            None => None,
        }
    } else {
        None
    }
}

/// The units of a character spell it.
proof fn lemma_char_units(c: char)
    ensures
        char_units(c).len() == 1 || char_units(c).len() == 2,
        char_units(c).len() == 1 ==> {
            let u = char_units(c);
            !is_high(u[0]) && !is_low(u[0]) && u[0] as char == c
        },
        char_units(c).len() == 2 ==> {
            let u = char_units(c);
            &&& is_high(u[0])
            &&& is_low(u[1])
            &&& (0x10000 + (u[0] - 0xD800) * 0x400 + (u[1] - 0xDC00)) as char == c
        },
{
    let v = c as u32;
    if v < 0x10000 {
        assert(v as u16 as u32 == v);
    } else {
        let w = v - 0x10000;
        let u = char_units(c);
        assert(0 <= w < 0x100000);
        assert(u[0] == 0xD800 + w / 0x400);
        assert(u[1] == 0xDC00 + w % 0x400);
        assert(0x10000 + (u[0] - 0xD800) * 0x400 + (u[1] - 0xDC00) == v);
    }
}

/// The units of a text spell the text.
pub proof fn law_utf16_round_trip(s: Seq<char>)
    ensures
        utf16_text(utf16_units(s)) == Some(s),
    decreases s.len(),
{
    if s.len() > 0 {
        let rest = s.subrange(1, s.len() as int);
        law_utf16_round_trip(rest);
        let u = utf16_units(s);
        lemma_char_units(s[0]);
        assert(seq![s[0]] + rest =~= s);
        if char_units(s[0]).len() == 1 {
            assert(u.subrange(1, u.len() as int) =~= utf16_units(rest));
            assert(u[0] == char_units(s[0])[0]);
        } else {
            assert(u.subrange(2, u.len() as int) =~= utf16_units(rest));
            assert(u[0] == char_units(s[0])[0]);
            assert(u[1] == char_units(s[0])[1]);
        }
    }
}

/// A text that some units spell has those units.
pub proof fn law_utf16_text_has_its_units(u: Seq<u16>)
    requires
        utf16_text(u) is Some,
    ensures
        utf16_units(utf16_text(u)->0) == u,
    decreases u.len(),
{
    if u.len() == 0 {
        assert(utf16_units(utf16_text(u)->0) =~= u);
    } else if !is_high(u[0]) && !is_low(u[0]) {
        let rest = u.subrange(1, u.len() as int);
        law_utf16_text_has_its_units(rest);
        let t = utf16_text(u)->0;
        assert(t.subrange(1, t.len() as int) =~= utf16_text(rest)->0);
        assert(t[0] as u32 == u[0]);
        assert(utf16_units(t) =~= u);
    } else {
        let rest = u.subrange(2, u.len() as int);
        law_utf16_text_has_its_units(rest);
        let t = utf16_text(u)->0;
        assert(t.subrange(1, t.len() as int) =~= utf16_text(rest)->0);
        let v = 0x10000 + (u[0] - 0xD800) * 0x400 + (u[1] - 0xDC00);
        assert(t[0] as u32 == v);
        assert((v - 0x10000) / 0x400 == u[0] - 0xD800);
        assert((v - 0x10000) % 0x400 == u[1] - 0xDC00);
        assert(utf16_units(t) =~= u);
    }
}

proof fn lemma_units_append(a: Seq<char>, c: char)
    ensures
        utf16_units(a.push(c)) == utf16_units(a) + char_units(c),
    decreases a.len(),
{
    let whole = a.push(c);
    if a.len() == 0 {
        assert(whole.subrange(1, 1) =~= Seq::<char>::empty());
        assert(utf16_units(whole.subrange(1, 1)) =~= Seq::<u16>::empty());
        assert(whole[0] == c);
        assert(utf16_units(whole) =~= utf16_units(a) + char_units(c));
    } else {
        let rest = a.subrange(1, a.len() as int);
        lemma_units_append(rest, c);
        assert(whole.subrange(1, whole.len() as int) =~= rest.push(c));
        assert(whole[0] == a[0]);
        assert(utf16_units(whole) =~= utf16_units(a) + char_units(c));
    }
}

/// The units of a text.
pub fn encode_units(s: &[char]) -> (r: Vec<u16>)
    ensures
        r@ == utf16_units(s@),
{
    let n: usize = s.len();
    let mut out: Vec<u16> = Vec::new();
    let mut i: usize = 0;
    assert(s@.take(0) =~= Seq::<char>::empty());
    while i < n
        invariant
            i <= n == s@.len(),
            out@ == utf16_units(s@.take(i as int)),
        decreases n - i,
    {
        let c: char = s[i];
        let v: u32 = c as u32;
        let ghost before = out@;
        if v < 0x10000 {
            out.push(v as u16);
        } else {
            let w: u32 = v - 0x10000;
            out.push((0xD800 + w / 0x400) as u16);
            out.push((0xDC00 + w % 0x400) as u16);
        }
        proof {
            lemma_units_append(s@.take(i as int), c);
            assert(s@.take(i + 1) =~= s@.take(i as int).push(c));
            assert(out@ =~= before + char_units(c));
        }
        i = i + 1;
    }
    assert(s@.take(n as int) =~= s@);
    out
}

/// `a` in front of a text, where there is one.
pub open spec fn after(a: Seq<char>, t: Option<Seq<char>>) -> Option<Seq<char>> {
    match t {
        Some(t) => Some(a + t),
        None => None,
    }
}

/// The text that some units spell, if they are valid UTF-16.
pub fn decode_units(u: &[u16]) -> (r: Option<Vec<char>>)
    ensures
        match r {
            Some(t) => utf16_text(u@) == Some(t@),
            None => utf16_text(u@) is None,
        },
{
    let n: usize = u.len();
    let mut out: Vec<char> = Vec::new();
    let mut i: usize = 0;
    assert(u@.subrange(0, n as int) =~= u@);
    assert(after(out@, utf16_text(u@)) =~= utf16_text(u@)) by {
        if utf16_text(u@) is Some {
            assert(out@ + utf16_text(u@)->0 =~= utf16_text(u@)->0);
        }
    }
    while i < n
        invariant
            i <= n == u@.len(),
            utf16_text(u@) == after(out@, utf16_text(u@.subrange(i as int, n as int))),
        decreases n - i,
    {
        let ghost rest = u@.subrange(i as int, n as int);
        let ghost before = out@;
        let a: u16 = u[i];
        if !(0xD800 <= a && a <= 0xDFFF) {
            match char::from_u32(a as u32) {
                Some(c) => {
                    out.push(c);
                    proof {
                        assert(rest.subrange(1, rest.len() as int) =~= u@.subrange(
                            i + 1,
                            n as int,
                        ));
                        let t = utf16_text(u@.subrange(i + 1, n as int));
                        assert(rest[0] == a);
                        vstd::utf8::char_u32_cast(c, a as u32);
                        assert(a as char == c);
                        if t is Some {
                            assert(before + (seq![c] + t->0) =~= out@ + t->0);
                        }
                    }
                },
                None => {
                    assert(false);
                },
            }
            i = i + 1;
        } else if a <= 0xDBFF && n - i >= 2 && 0xDC00 <= u[i + 1] && u[i + 1] <= 0xDFFF {
            let b: u16 = u[i + 1];
            let v: u32 = 0x10000 + (a as u32 - 0xD800) * 0x400 + (b as u32 - 0xDC00);
            match char::from_u32(v) {
                Some(c) => {
                    out.push(c);
                    proof {
                        assert(rest.subrange(2, rest.len() as int) =~= u@.subrange(
                            i + 2,
                            n as int,
                        ));
                        let t = utf16_text(u@.subrange(i + 2, n as int));
                        assert(rest[0] == a && rest[1] == b);
                        vstd::utf8::char_u32_cast(c, v);
                        assert((0x10000 + (rest[0] - 0xD800) * 0x400 + (rest[1] - 0xDC00)) as char
                            == c);
                        if t is Some {
                            assert(before + (seq![c] + t->0) =~= out@ + t->0);
                        }
                    }
                },
                None => {
                    assert(false);
                },
            }
            i = i + 2;
        } else {
            return None;
        }
    }
    assert(u@.subrange(n as int, n as int) =~= Seq::<u16>::empty());
    assert(out@ + Seq::<char>::empty() =~= out@);
    Some(out)
}

/// The bytes of some units, lowest first.
pub open spec fn unit_bytes(u: Seq<u16>) -> Seq<u8>
    decreases u.len(),
{
    if u.len() == 0 {
        Seq::empty()
    } else {
        unit_bytes(u.drop_last()) + u16_bytes(u.last())
    }
}

/// The units that pairs of bytes make; a byte left over at the end makes none.
pub open spec fn byte_units(b: Seq<u8>) -> Seq<u16> {
    Seq::new(b.len() / 2, |i: int| le_at(b, 2 * i, 2) as u16)
}

/// The bytes of some units, lowest first.
pub fn units_to_bytes(u: &[u16]) -> (r: Vec<u8>)
    ensures
        r@ == unit_bytes(u@),
{
    let n: usize = u.len();
    let mut out: Vec<u8> = Vec::new();
    let mut i: usize = 0;
    assert(u@.take(0) =~= Seq::<u16>::empty());
    while i < n
        invariant
            i <= n == u@.len(),
            out@ == unit_bytes(u@.take(i as int)),
        decreases n - i,
    {
        push_u16(&mut out, u[i]);
        i = i + 1;
        assert(u@.take(i as int).drop_last() =~= u@.take(i - 1));
    }
    assert(u@.take(n as int) =~= u@);
    out
}

/// The units that pairs of bytes make.
pub fn bytes_to_units(b: &[u8]) -> (r: Vec<u16>)
    ensures
        r@ == byte_units(b@),
{
    let n: usize = b.len() / 2;
    let total: usize = b.len();
    let mut out: Vec<u16> = Vec::new();
    let mut i: usize = 0;
    while i < n
        invariant
            i <= n == b@.len() / 2,
            total == b@.len(),
            out@ == byte_units(b@).take(i as int),
        decreases n - i,
    {
        match read_u16_at(b, 2 * i) {
            Some(v) => out.push(v),
            None => {
                assert(false);
            },
        }
        i = i + 1;
        assert(out@ =~= byte_units(b@).take(i as int));
    }
    assert(out@ =~= byte_units(b@));
    out
}

/// The bytes of some units make the units.
pub proof fn lemma_unit_bytes(u: Seq<u16>)
    ensures
        unit_bytes(u).len() == 2 * u.len(),
        byte_units(unit_bytes(u)) == u,
    decreases u.len(),
{
    lemma_int_bytes();
    if u.len() > 0 {
        let m = u.drop_last();
        lemma_unit_bytes(m);
        let b = unit_bytes(u);
        assert forall|i: int| 0 <= i < u.len() implies byte_units(b)[i] == u[i] by {
            if i < m.len() {
                assert(b.subrange(2 * i, 2 * i + 2) =~= unit_bytes(m).subrange(2 * i, 2 * i + 2));
                assert(byte_units(unit_bytes(m))[i] == m[i]);
            } else {
                assert(b.subrange(2 * i, 2 * i + 2) =~= u16_bytes(u.last()));
            }
        }
        assert(byte_units(b) =~= u);
    } else {
        assert(byte_units(unit_bytes(u)) =~= u);
    }
}

} // verus!
