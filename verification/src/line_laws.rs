//! What the patches that work line by line, and the one that empties arrays, do.

use crate::edit_laws::{is_list, lemma_list_closes};
use crate::edits::{
    array_emptied, closed_at, empty_array_entry, lemma_closed_at, property_key,
};
use crate::lines::{
    first_with, joined_by, law_split_text_joins_back, lemma_joined_front, split_by,
};
use crate::patches::{same_name, PatchId};
use crate::text::{
    contains_text, ends_with, find_from, index_of_char, lemma_find_from, occurs_at,
};
use crate::transforms::{
    law_utf16_file_reads_back, minimap_text, transformed, utf16_file_text, without_marks, zoom_line,
    zoomed, TransformError,
};
use vstd::prelude::*;

verus! {

/// The end of a line.
pub open spec fn line_end() -> Seq<char> {
    seq!['\r', '\n']
}

/// Whether `line` is a whole line between `a` and `b`.
pub open spec fn is_line(a: Seq<char>, line: Seq<char>, b: Seq<char>) -> bool {
    &&& a.len() == 0 || ends_with(a, line_end())
    &&& !contains_text(line, line_end())
    &&& b.len() == 0 || occurs_at(b, 0, line_end())
}

/// A text at `i` in the middle one of three texts, or in the first.
proof fn lemma_occurs_in_part(t: Seq<char>, from: int, part: Seq<char>, i: int, p: Seq<char>)
    requires
        0 <= from,
        from + part.len() <= t.len(),
        t.subrange(from, from + part.len()) == part,
        from <= i,
        i + p.len() <= from + part.len(),
    ensures
        occurs_at(t, i, p) == occurs_at(part, i - from, p),
{
    assert(t.subrange(i, i + p.len()) =~= part.subrange(i - from, i - from + p.len()));
}

proof fn lemma_first_end(t: Seq<char>, k: int)
    requires
        occurs_at(t, k, line_end()),
        forall|i: int| 0 <= i < k ==> !occurs_at(t, i, line_end()),
    ensures
        find_from(t, line_end(), 0) == Some(k),
{
    lemma_find_from(t, line_end(), 0);
}

/// An end of a line in a text: its two characters.
proof fn lemma_end_chars(t: Seq<char>, i: int)
    ensures
        occurs_at(t, i, line_end()) <==> 0 <= i && i + 2 <= t.len() && t[i] == '\r' && t[i + 1]
            == '\n',
{
    if 0 <= i && i + 2 <= t.len() {
        let s = t.subrange(i, i + 2);
        assert(s[0] == t[i] && s[1] == t[i + 1]);
        if t[i] == '\r' && t[i + 1] == '\n' {
            assert(s =~= line_end());
        }
    }
}

/// Where no line is before it, a line is the first that a text is split into.
proof fn lemma_first_line(line: Seq<char>, b: Seq<char>)
    requires
        is_line(Seq::empty(), line, b),
    ensures
        ({
            let lines = split_by(line + b, line_end());
            &&& lines.len() >= 1
            &&& lines[0] == line
            &&& forall|x: Seq<char>| #[trigger]
                joined_by(lines.update(0, x), line_end(), lines.len()) == x + b
            &&& forall|x: Seq<char>| #[trigger]
                joined_by(lines.insert(1, x), line_end(), lines.len() + 1) == line + line_end() + x
                    + b
        }),
{
    let t = line + b;
    let sep = line_end();
    let lines = split_by(t, sep);
    assert forall|i: int| 0 <= i < line.len() implies !occurs_at(t, i, sep) by {
        lemma_end_chars(t, i);
        lemma_end_chars(line, i);
        lemma_end_chars(b, 0);
    }
    if b.len() == 0 {
        lemma_find_from(t, sep, 0);
        assert(t =~= line);
        assert(find_from(t, sep, 0) is None);
        assert(lines =~= seq![line]);
        assert forall|x: Seq<char>| #[trigger]
            joined_by(lines.update(0, x), sep, lines.len()) == x + b by {
            assert(x + b =~= x);
        }
        assert forall|x: Seq<char>| #[trigger]
            joined_by(lines.insert(1, x), sep, lines.len() + 1) == line + sep + x + b by {
            let two = lines.insert(1, x);
            assert(two[0] == line && two[1] == x);
            assert(joined_by(two, sep, 1) == line);
            assert(line + sep + x + b =~= line + sep + x);
        }
    } else {
        assert(occurs_at(t, line.len() as int, sep)) by {
            lemma_end_chars(t, line.len() as int);
            lemma_end_chars(b, 0);
        }
        lemma_first_end(t, line.len() as int);
        let rest = t.subrange((line.len() + 2) as int, t.len() as int);
        let more = split_by(rest, sep);
        assert(t.subrange(0, line.len() as int) =~= line);
        assert(lines == seq![line] + more);
        law_split_text_joins_back(rest, sep);
        assert(b =~= sep + rest) by {
            lemma_end_chars(b, 0);
        }
        assert forall|x: Seq<char>| #[trigger]
            joined_by(lines.update(0, x), sep, lines.len()) == x + b by {
            assert(lines.update(0, x) =~= seq![x] + more);
            lemma_joined_front(x, more, sep, more.len());
            assert(x + sep + rest =~= x + b);
        }
        assert forall|x: Seq<char>| #[trigger]
            joined_by(lines.insert(1, x), sep, lines.len() + 1) == line + sep + x + b by {
            let two = seq![x] + more;
            assert(lines.insert(1, x) =~= seq![line] + two);
            lemma_joined_front(x, more, sep, more.len());
            lemma_joined_front(line, two, sep, two.len());
            assert(line + sep + (x + sep + rest) =~= line + sep + x + b);
        }
    }
}

/// A whole line is one of the lines that a text is split into; those before it stand
/// in the text before it.
proof fn lemma_line(a: Seq<char>, line: Seq<char>, b: Seq<char>) -> (i: int)
    requires
        is_line(a, line, b),
    ensures
        ({
            let lines = split_by(a + line + b, line_end());
            &&& 0 <= i < lines.len()
            &&& lines[i] == line
            &&& forall|j: int, p: Seq<char>|
                0 <= j < i && #[trigger] contains_text(lines[j], p) ==> contains_text(a, p)
            &&& forall|x: Seq<char>| #[trigger]
                joined_by(lines.update(i, x), line_end(), lines.len()) == a + x + b
            &&& forall|x: Seq<char>| #[trigger]
                joined_by(lines.insert(i + 1, x), line_end(), lines.len() + 1) == a + line
                    + line_end() + x + b
        }),
    decreases a.len(),
{
    let sep = line_end();
    let t = a + line + b;
    let lines = split_by(t, sep);
    if a.len() == 0 {
        assert(t =~= line + b);
        lemma_first_line(line, b);
        assert forall|x: Seq<char>| #[trigger] joined_by(lines.update(0, x), sep, lines.len()) == a
            + x + b by {
            assert(a + x + b =~= x + b);
        }
        assert forall|x: Seq<char>| #[trigger]
            joined_by(lines.insert(1, x), sep, lines.len() + 1) == a + line + sep + x + b by {
            assert(a + line + sep + x + b =~= line + sep + x + b);
        }
        0
    } else {
        lemma_find_from(a, sep, 0);
        assert(occurs_at(a, a.len() - 2, sep));
        let k = find_from(a, sep, 0)->0;
        let first = a.subrange(0, k);
        let a2 = a.subrange(k + 2, a.len() as int);
        assert(occurs_at(a, k, sep));
        assert(t.subrange(0, a.len() as int) =~= a);
        lemma_occurs_in_part(t, 0, a, k, sep);
        assert forall|i: int| 0 <= i < k implies !occurs_at(t, i, sep) by {
            lemma_occurs_in_part(t, 0, a, i, sep);
        }
        lemma_first_end(t, k);
        let rest = t.subrange(k + 2, t.len() as int);
        assert(rest =~= a2 + line + b);
        assert(t.subrange(0, k) =~= first);
        assert(a2.len() == 0 || ends_with(a2, sep)) by {
            if a2.len() > 0 {
                lemma_end_chars(a, k);
                lemma_end_chars(a, a.len() - 2);
                lemma_end_chars(a2, a2.len() - 2);
            }
        }
        let l = lemma_line(a2, line, b);
        let more = split_by(rest, sep);
        assert(lines == seq![first] + more);
        assert(lines[l + 1] == more[l]);
        assert(first + sep + a2 =~= a) by {
            lemma_end_chars(a, k);
        }
        assert forall|j: int, p: Seq<char>|
            0 <= j < l + 1 && #[trigger] contains_text(lines[j], p) implies contains_text(a, p) by {
            if j == 0 {
                let n = choose|n: int| occurs_at(first, n, p);
                assert(a.subrange(0, first.len() as int) =~= first);
                lemma_occurs_in_part(a, 0, first, n, p);
                assert(occurs_at(a, n, p));
            } else {
                assert(lines[j] == more[j - 1]);
                assert(contains_text(more[j - 1], p));
                let n = choose|n: int| occurs_at(a2, n, p);
                assert(a.subrange(k + 2, k + 2 + a2.len()) =~= a2);
                lemma_occurs_in_part(a, k + 2, a2, n + (k + 2), p);
                assert(occurs_at(a, n + (k + 2), p));
            }
        }
        assert forall|x: Seq<char>| #[trigger]
            joined_by(lines.update(l + 1, x), sep, lines.len()) == a + x + b by {
            assert(lines.update(l + 1, x) =~= seq![first] + more.update(l, x));
            lemma_joined_front(first, more.update(l, x), sep, more.len());
            assert(joined_by(more.update(l, x), sep, more.len()) == a2 + x + b);
            assert(first + sep + (a2 + x + b) =~= (first + sep + a2) + x + b);
        }
        assert forall|x: Seq<char>| #[trigger]
            joined_by(lines.insert(l + 1 + 1, x), sep, lines.len() + 1) == a + line + sep + x
                + b by {
            assert(lines.insert(l + 1 + 1, x) =~= seq![first] + more.insert(l + 1, x));
            lemma_joined_front(first, more.insert(l + 1, x), sep, more.len() + 1);
            assert(joined_by(more.insert(l + 1, x), sep, more.len() + 1) == a2 + line + sep + x
                + b);
            assert(first + sep + (a2 + line + sep + x + b) =~= (first + sep + a2) + line + sep + x
                + b);
        }
        l + 1
    }
}

proof fn lemma_first_with(lines: Seq<Seq<char>>, p: Seq<char>, i: int, from: int)
    requires
        0 <= from <= i < lines.len(),
        contains_text(lines[i], p),
        forall|j: int| from <= j < i ==> !contains_text(#[trigger] lines[j], p),
    ensures
        first_with(lines, p, from) == Some(i),
    decreases i - from,
{
    if from < i {
        assert(!contains_text(lines[from], p));
        lemma_first_with(lines, p, i, from + 1);
    }
}

/// A line that a text is split into stands in the text.
proof fn lemma_lines_are_parts(t: Seq<char>, j: int, p: Seq<char>)
    requires
        0 <= j < split_by(t, line_end()).len(),
        contains_text(split_by(t, line_end())[j], p),
    ensures
        contains_text(t, p),
    decreases t.len(),
{
    let sep = line_end();
    lemma_find_from(t, sep, 0);
    if let Some(k) = find_from(t, sep, 0) {
        let first = t.subrange(0, k);
        let rest = t.subrange(k + 2, t.len() as int);
        let more = split_by(rest, sep);
        assert(split_by(t, sep) == seq![first] + more);
        if j == 0 {
            let n = choose|n: int| occurs_at(first, n, p);
            assert(t.subrange(0, first.len() as int) =~= first);
            lemma_occurs_in_part(t, 0, first, n, p);
            assert(occurs_at(t, n, p));
        } else {
            assert(split_by(t, sep)[j] == more[j - 1]);
            lemma_lines_are_parts(rest, j - 1, p);
            let n = choose|n: int| occurs_at(rest, n, p);
            assert(t.subrange(k + 2, k + 2 + rest.len()) =~= rest);
            lemma_occurs_in_part(t, k + 2, rest, n + (k + 2), p);
            assert(occurs_at(t, n + (k + 2), p));
        }
    }
}

proof fn lemma_none_with(lines: Seq<Seq<char>>, p: Seq<char>, from: int)
    requires
        0 <= from,
        forall|j: int| from <= j < lines.len() ==> !contains_text(#[trigger] lines[j], p),
    ensures
        first_with(lines, p, from) is None,
    decreases lines.len() - from,
{
    if from < lines.len() {
        assert(!contains_text(lines[from], p));
        lemma_none_with(lines, p, from + 1);
    }
}

/// The line that sets the zoom takes the place of the first line that sets it.
pub proof fn law_zoom_replaces_the_first_zoom(
    a: Seq<char>,
    line: Seq<char>,
    b: Seq<char>,
    zoom: Seq<char>,
)
    requires
        is_line(a, line, b),
        contains_text(line, "CreateCameraZoomNode"@),
        !contains_text(a, "CreateCameraZoomNode"@),
    ensures
        zoomed(a + line + b, zoom) == a + (
        "\ton_initial_position_set = {CreateCameraZoomNode(5000.0, 5000.0, "@ + zoom + ");} "@) + b,
{
    let p = "CreateCameraZoomNode"@;
    let lines = split_by(a + line + b, line_end());
    let i = lemma_line(a, line, b);
    assert forall|j: int| 0 <= j < i implies !contains_text(#[trigger] lines[j], p) by {}
    lemma_first_with(lines, p, i, 0);
    assert(joined_by(lines.update(i, zoom_line(zoom)), line_end(), lines.len()) == a + zoom_line(
        zoom,
    ) + b);
}

/// Where no line sets the zoom, the line that does is put behind the first line of the
/// team.
pub proof fn law_zoom_follows_the_team(
    a: Seq<char>,
    line: Seq<char>,
    b: Seq<char>,
    zoom: Seq<char>,
)
    requires
        is_line(a, line, b),
        !contains_text(a + line + b, "CreateCameraZoomNode"@),
        contains_text(line, "team = 1"@),
        !contains_text(a, "team = 1"@),
    ensures
        zoomed(a + line + b, zoom) == a + line + seq!['\r', '\n'] + (
        "\ton_initial_position_set = {CreateCameraZoomNode(5000.0, 5000.0, "@ + zoom + ");} "@) + b,
{
    let p = "team = 1"@;
    let t = a + line + b;
    let lines = split_by(t, line_end());
    let i = lemma_line(a, line, b);
    assert forall|j: int| 0 <= j < lines.len() implies !contains_text(
        #[trigger] lines[j],
        "CreateCameraZoomNode"@,
    ) by {
        if contains_text(lines[j], "CreateCameraZoomNode"@) {
            lemma_lines_are_parts(t, j, "CreateCameraZoomNode"@);
        }
    }
    lemma_none_with(lines, "CreateCameraZoomNode"@, 0);
    assert forall|j: int| 0 <= j < i implies !contains_text(#[trigger] lines[j], p) by {}
    lemma_first_with(lines, p, i, 0);
    assert(joined_by(lines.insert(i + 1, zoom_line(zoom)), line_end(), lines.len() + 1) == a + line
        + line_end() + zoom_line(zoom) + b);
}

/// A script that neither sets the zoom nor names the team stays as it is.
pub proof fn law_other_scripts_are_not_zoomed(t: Seq<char>, zoom: Seq<char>)
    requires
        !contains_text(t, "CreateCameraZoomNode"@),
        !contains_text(t, "team = 1"@),
    ensures
        zoomed(t, zoom) == t,
{
    let lines = split_by(t, line_end());
    assert forall|j: int| 0 <= j < lines.len() implies !contains_text(
        #[trigger] lines[j],
        "CreateCameraZoomNode"@,
    ) by {
        if contains_text(lines[j], "CreateCameraZoomNode"@) {
            lemma_lines_are_parts(t, j, "CreateCameraZoomNode"@);
        }
    }
    lemma_none_with(lines, "CreateCameraZoomNode"@, 0);
    assert forall|j: int| 0 <= j < lines.len() implies !contains_text(
        #[trigger] lines[j],
        "team = 1"@,
    ) by {
        if contains_text(lines[j], "team = 1"@) {
            lemma_lines_are_parts(t, j, "team = 1"@);
        }
    }
    lemma_none_with(lines, "team = 1"@, 0);
    law_split_text_joins_back(t, line_end());
}

/// The zoom is set in the script of the characters.
pub proof fn law_camera_patch_sets_the_zoom(path: Seq<char>, bytes: Seq<u8>, zoom: Seq<char>)
    requires
        utf16_file_text(bytes) is Ok,
        same_name(path, "metadata/characters/character.ot"@),
    ensures
        ({
            let out = transformed(PatchId::Camera, path, bytes, zoom);
            &&& out is Ok
            &&& utf16_file_text(out->Ok_0) == Ok::<Seq<char>, TransformError>(
                without_marks(zoomed(utf16_file_text(bytes)->Ok_0, zoom)),
            )
        }),
{
    law_utf16_file_reads_back(zoomed(utf16_file_text(bytes)->Ok_0, zoom));
}

/// The shader of the minimap's visibility gets a floor behind the first line that
/// paints red.
pub proof fn law_visibility_gets_a_floor(path: Seq<char>, a: Seq<char>, line: Seq<char>, b: Seq<char>)
    requires
        ends_with(path, "minimap_visibility_pixel.hlsl"@),
        is_line(a, line, b),
        !contains_text(a + line + b, "res_color = max(res_color, 0.18f);"@),
        contains_text(line, "res_color = float4(1.0f, 0.0f, 0.0f, 1.0f);"@),
        !contains_text(a, "res_color = float4(1.0f, 0.0f, 0.0f, 1.0f);"@),
    ensures
        minimap_text(path, a + line + b) == a + line + seq!['\r', '\n']
            + "\tres_color = max(res_color, 0.18f);"@ + b,
{
    let p = "res_color = float4(1.0f, 0.0f, 0.0f, 1.0f);"@;
    let x = "\tres_color = max(res_color, 0.18f);"@;
    let lines = split_by(a + line + b, line_end());
    let i = lemma_line(a, line, b);
    assert forall|j: int| 0 <= j < i implies !contains_text(#[trigger] lines[j], p) by {}
    lemma_first_with(lines, p, i, 0);
    assert(joined_by(lines.insert(i + 1, x), line_end(), lines.len() + 1) == a + line + line_end()
        + x + b);
}

/// A shader that has the floor, or does not paint red, stays as it is.
pub proof fn law_other_visibility_stays(path: Seq<char>, t: Seq<char>)
    requires
        ends_with(path, "minimap_visibility_pixel.hlsl"@),
        contains_text(t, "res_color = max(res_color, 0.18f);"@) || !contains_text(
            t,
            "res_color = float4(1.0f, 0.0f, 0.0f, 1.0f);"@,
        ),
    ensures
        minimap_text(path, t) == t,
{
    let p = "res_color = float4(1.0f, 0.0f, 0.0f, 1.0f);"@;
    let lines = split_by(t, line_end());
    if !contains_text(t, p) {
        assert forall|j: int| 0 <= j < lines.len() implies !contains_text(#[trigger] lines[j], p) by {
            if contains_text(lines[j], p) {
                lemma_lines_are_parts(t, j, p);
            }
        }
        lemma_none_with(lines, p, 0);
    }
}

/// Whether the first place of `key` is `k`, the first bracket behind it opens a list
/// from `open` up to `end`, and a comma follows within five characters.
pub open spec fn is_array_at(
    t: Seq<char>,
    key: Seq<char>,
    k: int,
    open: int,
    end: int,
    comma: int,
) -> bool {
    &&& occurs_at(t, k, key)
    &&& forall|i: int| 0 <= i < k ==> !occurs_at(t, i, key)
    &&& k <= open
    &&& forall|i: int| k <= i < open ==> #[trigger] t[i] != '['
    &&& is_list(t, '[', ']', open, end)
    &&& end <= comma < t.len()
    &&& comma < end + 5
    &&& t[comma] == ','
    &&& forall|i: int| end <= i < comma ==> #[trigger] t[i] != ','
}

/// Whether `u` is `t` with the first array of the key replaced by `entry`, if there is
/// one.
pub open spec fn is_emptied(t: Seq<char>, key: Seq<char>, entry: Seq<char>, u: Seq<char>) -> bool {
    &&& forall|k: int, open: int, end: int, comma: int| #[trigger]
        is_array_at(t, key, k, open, end, comma) ==> u == t.subrange(0, k) + entry + t.subrange(
            comma + 1,
            t.len() as int,
        )
    &&& (forall|k: int, open: int, end: int, comma: int|
        !#[trigger] is_array_at(t, key, k, open, end, comma)) ==> u == t
}

proof fn lemma_index(t: Seq<char>, c: char, i: int, e: int)
    requires
        0 <= i <= e < t.len(),
        t[e] == c,
        forall|k: int| i <= k < e ==> #[trigger] t[k] != c,
    ensures
        index_of_char(t, c, i) == e,
    decreases e - i,
{
    if i < e {
        assert(t[i] != c);
        lemma_index(t, c, i + 1, e);
    }
}

proof fn lemma_index_before(t: Seq<char>, c: char, i: int)
    requires
        0 <= i <= t.len(),
    ensures
        i <= index_of_char(t, c, i) <= t.len(),
        forall|k: int| i <= k < index_of_char(t, c, i) ==> #[trigger] t[k] != c,
        index_of_char(t, c, i) < t.len() ==> t[index_of_char(t, c, i)] == c,
    decreases t.len() - i,
{
    if i < t.len() && t[i] != c {
        lemma_index_before(t, c, i + 1);
    }
}

proof fn lemma_array_found(
    t: Seq<char>,
    property: Seq<char>,
    k: int,
    open: int,
    end: int,
    comma: int,
)
    requires
        is_array_at(t, property_key(property), k, open, end, comma),
    ensures
        array_emptied(t, property) == t.subrange(0, k) + empty_array_entry(property) + t.subrange(
            comma + 1,
            t.len() as int,
        ),
{
    let key = property_key(property);
    lemma_find_from(t, key, 0);
    assert(find_from(t, key, 0) == Some(k));
    lemma_index(t, '[', k, open);
    lemma_list_closes(t, '[', ']', open);
    assert(crate::edit_laws::balance(t, '[', ']', open, end) == 0);
    if end - 1 == open {
        assert(crate::edit_laws::balance(t, '[', ']', open, open) == 0);
    }
    assert(t[end - 1] != ',') by {
        if end - 1 > open {
            assert(crate::edit_laws::balance(t, '[', ']', open, end - 1) > 0);
        }
    }
    assert forall|i: int| end - 1 <= i < comma implies #[trigger] t[i] != ',' by {}
    lemma_index(t, ',', end - 1, comma);
}

/// Emptying an array property puts the property with an empty list in the place of the
/// first one, from its name up to the comma behind its list, and changes nothing else.
pub proof fn law_array_is_emptied(t: Seq<char>, property: Seq<char>)
    ensures
        is_emptied(
            t,
            seq!['"'] + property + seq!['"', ':'],
            seq!['"'] + property + seq!['"', ':', ' ', '[', ']', ','],
            array_emptied(t, property),
        ),
{
    let key = property_key(property);
    assert forall|k: int, open: int, end: int, comma: int| #[trigger]
        is_array_at(t, key, k, open, end, comma) implies array_emptied(t, property) == t.subrange(
        0,
        k,
    ) + empty_array_entry(property) + t.subrange(comma + 1, t.len() as int) by {
        lemma_array_found(t, property, k, open, end, comma);
    }
    if array_emptied(t, property) != t {
        lemma_find_from(t, key, 0);
        let k = find_from(t, key, 0)->0;
        lemma_index_before(t, '[', k);
        let open = index_of_char(t, '[', k);
        assert(open < t.len());
        lemma_list_closes(t, '[', ']', open);
        lemma_closed_at(t, '[', ']', open + 1, 1);
        let end = closed_at(t, '[', ']', open + 1, 1)->0;
        lemma_index_before(t, ',', end - 1);
        let comma = index_of_char(t, ',', end - 1);
        assert(crate::edit_laws::balance(t, '[', ']', open, end) == 0);
        assert(t[end - 1] != ',') by {
            if end - 1 > open {
                assert(crate::edit_laws::balance(t, '[', ']', open, end - 1) > 0);
            }
        }
        assert(is_array_at(t, key, k, open, end, comma));
    }
}

/// The Atlas patch empties the first array of nodes, and then the first array of links.
pub proof fn law_atlas_patch_empties_nodes_and_links(
    path: Seq<char>,
    bytes: Seq<u8>,
    zoom: Seq<char>,
) -> (steps: (Seq<char>, Seq<char>))
    requires
        utf16_file_text(bytes) is Ok,
    ensures
        ({
            let out = transformed(PatchId::AtlasFog, path, bytes, zoom);
            &&& out is Ok
            &&& is_emptied(
                utf16_file_text(bytes)->Ok_0,
                "\"nodes\":"@,
                "\"nodes\": [],"@,
                steps.0,
            )
            &&& is_emptied(steps.0, "\"links\":"@, "\"links\": [],"@, steps.1)
            &&& utf16_file_text(out->Ok_0) == Ok::<Seq<char>, TransformError>(
                without_marks(steps.1),
            )
        }),
{
    let t = utf16_file_text(bytes)->Ok_0;
    let u = array_emptied(t, "nodes"@);
    let v = array_emptied(u, "links"@);
    law_array_is_emptied(t, "nodes"@);
    law_array_is_emptied(u, "links"@);
    reveal_strlit("nodes");
    reveal_strlit("links");
    reveal_strlit("\"nodes\":");
    reveal_strlit("\"links\":");
    reveal_strlit("\"nodes\": [],");
    reveal_strlit("\"links\": [],");
    assert("\"nodes\":"@ =~= seq!['"'] + "nodes"@ + seq!['"', ':']);
    assert("\"links\":"@ =~= seq!['"'] + "links"@ + seq!['"', ':']);
    assert("\"nodes\": [],"@ =~= seq!['"'] + "nodes"@ + seq!['"', ':', ' ', '[', ']', ',']);
    assert("\"links\": [],"@ =~= seq!['"'] + "links"@ + seq!['"', ':', ' ', '[', ']', ',']);
    law_utf16_file_reads_back(v);
    (u, v)
}

} // verus!
