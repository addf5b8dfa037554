//! What the directory data of the index spells: writing paths down in its form and
//! reading them gives the paths.

use crate::bytes::{holds_at, lemma_holds_split, lemma_holds_u32, lemma_int_bytes, u32_bytes};
use crate::index::{nul_from, paths_from, paths_read, IndexError};
use vstd::prelude::*;
use vstd::utf8::{encode_scalar, encode_utf8};

verus! {

/// One text of the directory data: the number of the beginning that it continues,
/// and what stands behind that beginning.
pub struct Spelling {
    pub number: u32,
    pub suffix: Seq<char>,
}

/// A table of beginnings, and paths that are spelled with it.
pub struct Section {
    pub beginnings: Seq<Spelling>,
    pub paths: Seq<Spelling>,
}

/// A text in directory data: the number, the suffix, and a zero byte.
pub open spec fn spelling_bytes(e: Spelling) -> Seq<u8> {
    u32_bytes(e.number) + (encode_utf8(e.suffix) + seq![0u8])
}

/// Some texts, one after the other.
pub open spec fn spellings_bytes(es: Seq<Spelling>) -> Seq<u8>
    decreases es.len(),
{
    if es.len() == 0 {
        Seq::empty()
    } else {
        spelling_bytes(es[0]) + spellings_bytes(es.drop_first())
    }
}

/// A section: a zero in front of the table, and one in front of the paths.
pub open spec fn section_bytes(g: Section) -> Seq<u8> {
    u32_bytes(0) + (spellings_bytes(g.beginnings) + (u32_bytes(0) + spellings_bytes(g.paths)))
}

/// Some sections, one after the other.
pub open spec fn sections_bytes(gs: Seq<Section>) -> Seq<u8>
    decreases gs.len(),
{
    if gs.len() == 0 {
        Seq::empty()
    } else {
        section_bytes(gs[0]) + sections_bytes(gs.drop_first())
    }
}

/// Whether a text can be written down: zero is no number of a beginning, and the
/// suffix holds no character that would end it.
pub open spec fn can_be_spelled(e: Spelling) -> bool {
    e.number != 0 && !e.suffix.contains('\0')
}

/// Whether `text` is what `e` spells with the beginnings of `table`: the beginning
/// that has the number, counted from one, and the suffix behind it; the suffix alone
/// where no beginning has the number.
pub open spec fn is_spelled(e: Spelling, table: Seq<Seq<char>>, text: Seq<char>) -> bool {
    if e.number <= table.len() {
        text == table[e.number - 1] + e.suffix
    } else {
        text == e.suffix
    }
}

/// Whether `table` holds the beginnings of a section, each of which may continue one
/// before it, and `paths` the paths.
pub open spec fn is_section(g: Section, table: Seq<Seq<char>>, paths: Seq<Seq<char>>) -> bool {
    &&& table.len() == g.beginnings.len()
    &&& paths.len() == g.paths.len()
    &&& forall|i: int|
        0 <= i < table.len() ==> can_be_spelled(#[trigger] g.beginnings[i]) && is_spelled(
            g.beginnings[i],
            table.take(i),
            table[i],
        )
    &&& forall|i: int|
        0 <= i < paths.len() ==> can_be_spelled(#[trigger] g.paths[i]) && is_spelled(
            g.paths[i],
            table,
            paths[i],
        )
}

/// Some lists of texts, one behind the other.
pub open spec fn one_list(lists: Seq<Seq<Seq<char>>>) -> Seq<Seq<char>>
    decreases lists.len(),
{
    if lists.len() == 0 {
        Seq::empty()
    } else {
        lists[0] + one_list(lists.drop_first())
    }
}

proof fn lemma_scalar_has_no_zero(v: u32)
    requires
        v != 0,
    ensures
        !encode_scalar(v).contains(0),
{
    assert(v <= 0x7F && v != 0 ==> (v & 0x7F) as u8 != 0) by (bit_vector);
    assert(0xC0u8 | ((v >> 6) & 0x1F) as u8 != 0u8) by (bit_vector);
    assert(0xE0u8 | ((v >> 12) & 0x0F) as u8 != 0u8) by (bit_vector);
    assert(0xF0u8 | ((v >> 18) & 0x7) as u8 != 0u8) by (bit_vector);
    assert(0x80u8 | (v & 0x3F) as u8 != 0u8) by (bit_vector);
    assert(0x80u8 | ((v >> 6) & 0x3F) as u8 != 0u8) by (bit_vector);
    assert(0x80u8 | ((v >> 12) & 0x3F) as u8 != 0u8) by (bit_vector);
}

/// Without the character zero, a text has no zero byte.
proof fn lemma_utf8_has_no_zero(t: Seq<char>)
    requires
        !t.contains('\0'),
    ensures
        !encode_utf8(t).contains(0),
    decreases t.len(),
{
    if t.len() > 0 {
        let rest = t.drop_first();
        assert(t.contains(t[0]));
        assert(!rest.contains('\0')) by {
            if rest.contains('\0') {
                let i = choose|i: int| 0 <= i < rest.len() && rest[i] == '\0';
                assert(t[i + 1] == '\0');
            }
        }
        lemma_utf8_has_no_zero(rest);
        let c = t[0];
        assert(c as u32 != 0) by {
            vstd::utf8::char_u32_cast(c, c as u32);
        }
        lemma_scalar_has_no_zero(t[0] as u32);
        let a = encode_scalar(t[0] as u32);
        let b = encode_utf8(rest);
        assert(encode_utf8(t) == a + b);
        if (a + b).contains(0) {
            let i = choose|i: int| 0 <= i < (a + b).len() && (a + b)[i] == 0;
            if i < a.len() {
                assert(a.contains(a[i]));
            } else {
                assert(b.contains(b[i - a.len()]));
            }
        }
    }
}

/// The first zero byte behind some bytes that are none.
proof fn lemma_nul_is(s: Seq<u8>, pos: int, end: int)
    requires
        0 <= pos <= end < s.len(),
        s[end] == 0,
        forall|i: int| pos <= i < end ==> #[trigger] s[i] != 0,
    ensures
        nul_from(s, pos) == end,
    decreases end - pos,
{
    if pos < end {
        lemma_nul_is(s, pos + 1, end);
    }
}

/// What a reader meets where a text stands.
proof fn lemma_spelling_read(s: Seq<u8>, pos: int, e: Spelling)
    requires
        can_be_spelled(e),
        holds_at(s, pos, spelling_bytes(e)),
    ensures
        ({
            let end = pos + 4 + encode_utf8(e.suffix).len();
            &&& crate::bytes::u32_at(s, pos) == e.number
            &&& nul_from(s, pos + 4) == end
            &&& end < s.len()
            &&& end + 1 == pos + spelling_bytes(e).len()
            &&& vstd::utf8::valid_utf8(s.subrange(pos + 4, end))
            &&& vstd::utf8::decode_utf8(s.subrange(pos + 4, end)) == e.suffix
        }),
{
    let text = encode_utf8(e.suffix);
    let tail = text + seq![0u8];
    lemma_int_bytes();
    lemma_holds_split(s, pos, u32_bytes(e.number), tail);
    lemma_holds_u32(s, pos, e.number);
    let end = pos + 4 + text.len();
    lemma_utf8_has_no_zero(e.suffix);
    let held = s.subrange(pos + 4, pos + 4 + tail.len());
    assert(held == tail);
    assert(s[end] == 0) by {
        assert(held[text.len() as int] == s[end]);
    }
    assert forall|i: int| pos + 4 <= i < end implies #[trigger] s[i] != 0 by {
        assert(held[i - (pos + 4)] == s[i]);
        assert(text.contains(text[i - (pos + 4)]));
    }
    lemma_nul_is(s, pos + 4, end);
    assert(s.subrange(pos + 4, end) =~= text) by {
        assert(held.subrange(0, text.len() as int) =~= text);
        assert(held.subrange(0, text.len() as int) =~= s.subrange(pos + 4, end));
    }
    vstd::utf8::encode_utf8_valid_utf8(e.suffix);
    vstd::utf8::encode_utf8_decode_utf8(e.suffix);
}

/// Texts of the table go behind what it has.
proof fn lemma_beginnings_read(
    s: Seq<u8>,
    pos: int,
    es: Seq<Spelling>,
    before: Seq<Seq<char>>,
    table: Seq<Seq<char>>,
    out: Seq<Seq<char>>,
)
    requires
        holds_at(s, pos, spellings_bytes(es)),
        before.len() + es.len() == table.len(),
        before == table.take(before.len() as int),
        forall|i: int|
            0 <= i < es.len() ==> can_be_spelled(#[trigger] es[i]) && is_spelled(
                es[i],
                table.take(before.len() + i),
                table[before.len() + i],
            ),
    ensures
        paths_from(s, pos, true, before, out) == paths_from(
            s,
            pos + spellings_bytes(es).len(),
            true,
            table,
            out,
        ),
        paths_read(s, pos, true, before, out) == paths_read(
            s,
            pos + spellings_bytes(es).len(),
            true,
            table,
            out,
        ),
    decreases es.len(),
{
    if es.len() == 0 {
        assert(before =~= table);
    } else {
        let e = es[0];
        let rest = es.drop_first();
        let text = table[before.len() as int];
        lemma_holds_split(s, pos, spelling_bytes(e), spellings_bytes(rest));
        lemma_spelling_read(s, pos, e);
        assert(is_spelled(es[0], table.take(before.len() + 0int), table[before.len() + 0int]));
        let grown = before.push(text);
        assert(grown =~= table.take(grown.len() as int));
        assert forall|i: int| 0 <= i < rest.len() implies can_be_spelled(#[trigger] rest[i])
            && is_spelled(rest[i], table.take(grown.len() + i), table[grown.len() + i]) by {
            assert(rest[i] == es[i + 1]);
        }
        lemma_beginnings_read(s, pos + spelling_bytes(e).len(), rest, grown, table, out);
    }
}

/// Texts of the paths go behind those that are there.
proof fn lemma_spelled_paths_read(
    s: Seq<u8>,
    pos: int,
    es: Seq<Spelling>,
    table: Seq<Seq<char>>,
    paths: Seq<Seq<char>>,
    out: Seq<Seq<char>>,
)
    requires
        holds_at(s, pos, spellings_bytes(es)),
        paths.len() == es.len(),
        forall|i: int|
            0 <= i < es.len() ==> can_be_spelled(#[trigger] es[i]) && is_spelled(
                es[i],
                table,
                paths[i],
            ),
    ensures
        paths_from(s, pos, false, table, out) == paths_from(
            s,
            pos + spellings_bytes(es).len(),
            false,
            table,
            out + paths,
        ),
        paths_read(s, pos, false, table, out) == paths_read(
            s,
            pos + spellings_bytes(es).len(),
            false,
            table,
            out + paths,
        ),
    decreases es.len(),
{
    if es.len() == 0 {
        assert(out + paths =~= out);
    } else {
        let e = es[0];
        let rest = es.drop_first();
        let left = paths.drop_first();
        lemma_holds_split(s, pos, spelling_bytes(e), spellings_bytes(rest));
        lemma_spelling_read(s, pos, e);
        assert forall|i: int| 0 <= i < rest.len() implies can_be_spelled(#[trigger] rest[i])
            && is_spelled(rest[i], table, left[i]) by {
            assert(rest[i] == es[i + 1]);
        }
        assert(out + paths =~= out.push(paths[0]) + left);
        lemma_spelled_paths_read(
            s,
            pos + spelling_bytes(e).len(),
            rest,
            table,
            left,
            out.push(paths[0]),
        );
    }
}

proof fn lemma_switch_read(
    s: Seq<u8>,
    pos: int,
    generating: bool,
    table: Seq<Seq<char>>,
    out: Seq<Seq<char>>,
)
    requires
        holds_at(s, pos, u32_bytes(0)),
    ensures
        ({
            let next = if generating {
                table
            } else {
                Seq::empty()
            };
            &&& paths_from(s, pos, generating, table, out) == paths_from(
                s,
                pos + 4,
                !generating,
                next,
                out,
            )
            &&& paths_read(s, pos, generating, table, out) == paths_read(
                s,
                pos + 4,
                !generating,
                next,
                out,
            )
        }),
{
    lemma_int_bytes();
    lemma_holds_u32(s, pos, 0);
}

/// A section adds its paths.
proof fn lemma_section_read(
    s: Seq<u8>,
    pos: int,
    g: Section,
    last: Seq<Seq<char>>,
    table: Seq<Seq<char>>,
    paths: Seq<Seq<char>>,
    out: Seq<Seq<char>>,
)
    requires
        holds_at(s, pos, section_bytes(g)),
        is_section(g, table, paths),
    ensures
        paths_from(s, pos, false, last, out) == paths_from(
            s,
            pos + section_bytes(g).len(),
            false,
            table,
            out + paths,
        ),
        paths_read(s, pos, false, last, out) == paths_read(
            s,
            pos + section_bytes(g).len(),
            false,
            table,
            out + paths,
        ),
{
    lemma_int_bytes();
    let zero = u32_bytes(0);
    let a = spellings_bytes(g.beginnings);
    let b = spellings_bytes(g.paths);
    let none: Seq<Seq<char>> = Seq::empty();
    lemma_holds_split(s, pos, zero, a + (zero + b));
    lemma_holds_split(s, pos + 4, a, zero + b);
    lemma_holds_split(s, pos + 4 + a.len(), zero, b);
    lemma_switch_read(s, pos, false, last, out);
    assert(none =~= table.take(0));
    assert forall|i: int| 0 <= i < g.beginnings.len() implies can_be_spelled(
        #[trigger] g.beginnings[i],
    ) && is_spelled(g.beginnings[i], table.take(none.len() + i), table[none.len() + i]) by {}
    lemma_beginnings_read(s, pos + 4, g.beginnings, none, table, out);
    lemma_switch_read(s, pos + 4 + a.len(), true, table, out);
    lemma_spelled_paths_read(s, pos + 8 + a.len(), g.paths, table, paths, out);
    assert(section_bytes(g).len() == 8 + a.len() + b.len());
}

/// Sections add their paths, one after the other; also where the reader goes on.
proof fn lemma_sections_read(
    s: Seq<u8>,
    pos: int,
    gs: Seq<Section>,
    last: Seq<Seq<char>>,
    tables: Seq<Seq<Seq<char>>>,
    paths: Seq<Seq<Seq<char>>>,
    out: Seq<Seq<char>>,
) -> (table: Seq<Seq<char>>)
    requires
        holds_at(s, pos, sections_bytes(gs)),
        tables.len() == gs.len(),
        paths.len() == gs.len(),
        forall|k: int| 0 <= k < gs.len() ==> is_section(#[trigger] gs[k], tables[k], paths[k]),
    ensures
        paths_from(s, pos, false, last, out) == paths_from(
            s,
            pos + sections_bytes(gs).len(),
            false,
            table,
            out + one_list(paths),
        ),
        paths_read(s, pos, false, last, out) == paths_read(
            s,
            pos + sections_bytes(gs).len(),
            false,
            table,
            out + one_list(paths),
        ),
    decreases gs.len(),
{
    if gs.len() == 0 {
        assert(out + one_list(paths) =~= out);
        last
    } else {
        let rest = gs.drop_first();
        lemma_holds_split(s, pos, section_bytes(gs[0]), sections_bytes(rest));
        lemma_section_read(s, pos, gs[0], last, tables[0], paths[0], out);
        assert forall|k: int| 0 <= k < rest.len() implies is_section(
            #[trigger] rest[k],
            tables.drop_first()[k],
            paths.drop_first()[k],
        ) by {
            assert(rest[k] == gs[k + 1]);
        }
        let table = lemma_sections_read(
            s,
            pos + section_bytes(gs[0]).len(),
            rest,
            tables[0],
            tables.drop_first(),
            paths.drop_first(),
            out + paths[0],
        );
        assert(out + one_list(paths) =~= out + paths[0] + one_list(paths.drop_first()));
        table
    }
}

/// Paths that are written down in sections, each with a table of beginnings in front
/// of it, are read: each path is the beginning that it names, with its suffix behind
/// it. They go behind the paths that are there already.
pub proof fn law_spelled_paths_are_read(
    gs: Seq<Section>,
    tables: Seq<Seq<Seq<char>>>,
    paths: Seq<Seq<Seq<char>>>,
    out: Seq<Seq<char>>,
)
    requires
        tables.len() == gs.len(),
        paths.len() == gs.len(),
        forall|k: int| 0 <= k < gs.len() ==> is_section(#[trigger] gs[k], tables[k], paths[k]),
    ensures
        paths_from(sections_bytes(gs), 0, false, Seq::empty(), out) == Ok::<
            Seq<Seq<char>>,
            IndexError,
        >(out + one_list(paths)),
        paths_read(sections_bytes(gs), 0, false, Seq::empty(), out) == out + one_list(paths),
{
    let s = sections_bytes(gs);
    assert(s.subrange(0, s.len() as int) =~= s);
    let table = lemma_sections_read(s, 0, gs, Seq::empty(), tables, paths, out);
}

/// Where a text behind some sections has no end, that is an error, and the paths in
/// front of it stay.
pub proof fn law_text_without_end_is_a_fault(
    gs: Seq<Section>,
    tables: Seq<Seq<Seq<char>>>,
    paths: Seq<Seq<Seq<char>>>,
    number: u32,
    rest: Seq<u8>,
    out: Seq<Seq<char>>,
)
    requires
        tables.len() == gs.len(),
        paths.len() == gs.len(),
        forall|k: int| 0 <= k < gs.len() ==> is_section(#[trigger] gs[k], tables[k], paths[k]),
        number != 0,
        !rest.contains(0),
    ensures
        ({
            let s = sections_bytes(gs) + (u32_bytes(number) + rest);
            &&& paths_from(s, 0, false, Seq::empty(), out) == Err::<Seq<Seq<char>>, IndexError>(
                IndexError::PathTruncated,
            )
            &&& paths_read(s, 0, false, Seq::empty(), out) == out + one_list(paths)
        }),
{
    lemma_int_bytes();
    let a = sections_bytes(gs);
    let b = u32_bytes(number) + rest;
    let s = a + b;
    assert(s.subrange(0, s.len() as int) =~= s);
    lemma_holds_split(s, 0, a, b);
    lemma_holds_split(s, a.len() as int, u32_bytes(number), rest);
    lemma_holds_u32(s, a.len() as int, number);
    let table = lemma_sections_read(s, 0, gs, Seq::empty(), tables, paths, out);
    let at = a.len() + 4;
    assert forall|i: int| at <= i < s.len() implies #[trigger] s[i] != 0 by {
        assert(rest.contains(rest[i - at]));
    }
    lemma_no_nul(s, at as int);
}

proof fn lemma_no_nul(s: Seq<u8>, pos: int)
    requires
        0 <= pos,
        forall|i: int| pos <= i < s.len() ==> #[trigger] s[i] != 0,
    ensures
        nul_from(s, pos) == s.len(),
    decreases s.len() - pos,
{
    if pos < s.len() {
        lemma_no_nul(s, pos + 1);
    }
}

} // verus!
