//! What a search of the archive finds when one pointer of it is turned
//! elsewhere.

use crate::bytes::{le_at, u32_at, u64_at};
use crate::ggpk::{
    file_below, file_in_children, ggpk_path, may_contain, name32_from, name_at, tag_of, units_from,
    GgpkError, RecordTag,
};
use crate::ggpk_patch::{lemma_name32_end, lemma_name_end, lemma_units_end};
use vstd::prelude::*;

verus! {

/// Whether what stands from `a` up to `b` lies outside of the eight bytes at `p`.
pub open spec fn apart(a: int, b: int, p: int) -> bool {
    b <= p || p + 8 <= a
}

/// The number of offsets in the first record of an archive.
pub open spec fn offset_count(size: int) -> int {
    if size < 12 {
        0
    } else {
        (size - 12) / 8
    }
}

/// Whether the records that are reached from the one at `offset`, whose folder is
/// `base`, lie outside of the pointer at `p`, but for the table that it stands in.
/// That table belongs to a folder without a name, at the top of the archive.
pub open spec fn clear_of(
    s: Seq<u8>,
    utf32: bool,
    p: int,
    offset: int,
    base: Seq<char>,
    depth: nat,
) -> bool
    decreases depth, 0int,
{
    if depth == 0 || offset + 8 > s.len() {
        true
    } else {
        let size = u32_at(s, offset) as int;
        match tag_of(s.subrange(offset + 4, offset + 8)) {
            Err(_) => true,
            Ok(RecordTag::Ggpk) => {
                &&& apart(offset, offset + 12, p)
                &&& children_clear_of(
                    s,
                    utf32,
                    p,
                    offset + 12,
                    8,
                    0,
                    offset_count(size),
                    base,
                    (depth - 1) as nat,
                )
            },
            Ok(RecordTag::Pdir) => match name_at(s, offset + 48, utf32) {
                Err(_) => true,
                Ok((name, end)) => {
                    &&& apart(offset, end, p)
                    &&& children_clear_of(
                        s,
                        utf32,
                        p,
                        end + 4,
                        12,
                        0,
                        u32_at(s, offset + 12) as int,
                        ggpk_path(base, name),
                        (depth - 1) as nat,
                    )
                },
            },
            Ok(RecordTag::File) => match name_at(s, offset + 44, utf32) {
                Err(_) => true,
                Ok((_, end)) => apart(offset, end, p) && apart(offset, offset + size, p),
            },
            Ok(_) => apart(offset, offset + 8, p),
        }
    }
}

pub open spec fn children_clear_of(
    s: Seq<u8>,
    utf32: bool,
    p: int,
    pos: int,
    stride: int,
    i: int,
    n: int,
    base: Seq<char>,
    depth: nat,
) -> bool
    decreases depth, 1 + n - i,
{
    let at = pos + stride * i;
    if i >= n || at + 8 > s.len() {
        true
    } else {
        &&& if at == p {
            base.len() == 0
        } else {
            apart(at, at + 8, p)
        }
        &&& clear_of(s, utf32, p, u64_at(s, at) as int, base, depth)
        &&& children_clear_of(s, utf32, p, pos, stride, i + 1, n, base, depth)
    }
}

pub open spec fn found_nothing(r: Result<Option<(int, int)>, GgpkError>) -> bool {
    match r {
        Ok(None) => true,
        _ => false,
    }
}

pub open spec fn found_file(r: Result<Option<(int, int)>, GgpkError>) -> bool {
    match r {
        Ok(Some(_)) => true,
        _ => false,
    }
}

/// Where the search for `wanted` below the record at `offset` comes to the pointer
/// at `p` without having found anything: how many records deep it may still go.
pub open spec fn depth_at_pointer(
    s: Seq<u8>,
    utf32: bool,
    p: int,
    offset: int,
    base: Seq<char>,
    wanted: Seq<char>,
    depth: nat,
) -> Option<nat>
    decreases depth, 0int,
{
    if offset + 8 > s.len() || depth == 0 {
        None
    } else {
        let size = u32_at(s, offset) as int;
        match tag_of(s.subrange(offset + 4, offset + 8)) {
            Ok(RecordTag::Ggpk) => if offset + 12 > s.len() {
                None
            } else {
                depth_at_pointer_in_children(
                    s,
                    utf32,
                    p,
                    offset + 12,
                    8,
                    0,
                    offset_count(size),
                    base,
                    wanted,
                    (depth - 1) as nat,
                )
            },
            Ok(RecordTag::Pdir) => if offset + 16 > s.len() {
                None
            } else {
                match name_at(s, offset + 48, utf32) {
                    Err(_) => None,
                    Ok((name, end)) => if !may_contain(ggpk_path(base, name), wanted) {
                        None
                    } else {
                        depth_at_pointer_in_children(
                            s,
                            utf32,
                            p,
                            end + 4,
                            12,
                            0,
                            u32_at(s, offset + 12) as int,
                            ggpk_path(base, name),
                            wanted,
                            (depth - 1) as nat,
                        )
                    },
                }
            },
            _ => None,
        }
    }
}

pub open spec fn depth_at_pointer_in_children(
    s: Seq<u8>,
    utf32: bool,
    p: int,
    pos: int,
    stride: int,
    i: int,
    n: int,
    base: Seq<char>,
    wanted: Seq<char>,
    depth: nat,
) -> Option<nat>
    decreases depth, 1 + n - i,
{
    let at = pos + stride * i;
    if i >= n || at + 8 > s.len() {
        None
    } else if at == p {
        Some(depth)
    } else {
        let child = u64_at(s, at) as int;
        match depth_at_pointer(s, utf32, p, child, base, wanted, depth) {
            Some(left) => Some(left),
            None => if found_nothing(file_below(s, utf32, child, base, wanted, depth)) {
                depth_at_pointer_in_children(
                    s,
                    utf32,
                    p,
                    pos,
                    stride,
                    i + 1,
                    n,
                    base,
                    wanted,
                    depth,
                )
            } else {
                None
            },
        }
    }
}

/// What is found below the record that the pointer at `p` leads to.
#[verifier::opaque]
pub open spec fn behind_pointer(
    s: Seq<u8>,
    utf32: bool,
    p: int,
    wanted: Seq<char>,
    depth: nat,
) -> Result<Option<(int, int)>, GgpkError> {
    file_below(s, utf32, u64_at(s, p) as int, Seq::empty(), wanted, depth)
}

/// Whether the archives are the same but for the eight bytes at `p` and what the
/// second one has behind the end of the first.
pub open spec fn same_but_pointer(s: Seq<u8>, t: Seq<u8>, p: int) -> bool {
    &&& s.len() <= t.len()
    &&& 0 <= p
    &&& p + 8 <= s.len()
    &&& forall|i: int| 0 <= i < s.len() && !(p <= i < p + 8) ==> #[trigger] s[i] == t[i]
}

proof fn lemma_same_part(s: Seq<u8>, t: Seq<u8>, p: int, a: int, b: int)
    requires
        same_but_pointer(s, t, p),
        0 <= a <= b <= s.len(),
        apart(a, b, p),
    ensures
        s.subrange(a, b) == t.subrange(a, b),
{
    assert(s.subrange(a, b) =~= t.subrange(a, b));
}

proof fn lemma_same_name32(s: Seq<u8>, t: Seq<u8>, p: int, pos: int, before: Seq<char>)
    requires
        same_but_pointer(s, t, p),
        name32_from(s, pos, before) is Ok,
        apart(pos, name32_from(s, pos, before)->Ok_0.1, p),
    ensures
        name32_from(t, pos, before) == name32_from(s, pos, before),
    decreases s.len() - pos,
{
    lemma_name32_end(s, pos, before);
    let v = u32_at(s, pos);
    if v != 0 {
        lemma_name32_end(s, pos + 4, before.push(v as char));
        lemma_same_name32(s, t, p, pos + 4, before.push(v as char));
    }
    lemma_same_part(s, t, p, pos, pos + 4);
}

proof fn lemma_same_units(s: Seq<u8>, t: Seq<u8>, p: int, pos: int, before: Seq<u16>)
    requires
        same_but_pointer(s, t, p),
        units_from(s, pos, before) is Some,
        apart(pos, (units_from(s, pos, before)->0).1, p),
    ensures
        units_from(t, pos, before) == units_from(s, pos, before),
    decreases s.len() - pos,
{
    lemma_units_end(s, pos, before);
    let v = le_at(s, pos, 2) as u16;
    if v != 0 {
        lemma_units_end(s, pos + 2, before.push(v));
        lemma_same_units(s, t, p, pos + 2, before.push(v));
    }
    lemma_same_part(s, t, p, pos, pos + 2);
}

proof fn lemma_same_name(s: Seq<u8>, t: Seq<u8>, p: int, pos: int, utf32: bool)
    requires
        same_but_pointer(s, t, p),
        name_at(s, pos, utf32) is Ok,
        apart(pos, name_at(s, pos, utf32)->Ok_0.1, p),
    ensures
        name_at(t, pos, utf32) == name_at(s, pos, utf32),
{
    if utf32 {
        lemma_same_name32(s, t, p, pos, Seq::empty());
    } else {
        lemma_same_units(s, t, p, pos, Seq::empty());
    }
}

/// A search that comes to an end gives the same when it may go deeper.
pub proof fn lemma_deeper(
    s: Seq<u8>,
    utf32: bool,
    offset: int,
    base: Seq<char>,
    wanted: Seq<char>,
    depth: nat,
    more: nat,
)
    requires
        file_below(s, utf32, offset, base, wanted, depth) is Ok,
        depth <= more,
    ensures
        file_below(s, utf32, offset, base, wanted, more) == file_below(
            s,
            utf32,
            offset,
            base,
            wanted,
            depth,
        ),
    decreases depth, 0int,
{
    let size = u32_at(s, offset) as int;
    match tag_of(s.subrange(offset + 4, offset + 8)) {
        Ok(RecordTag::Ggpk) => {
            lemma_deeper_in_children(
                s,
                utf32,
                offset + 12,
                8,
                0,
                offset_count(size),
                base,
                wanted,
                (depth - 1) as nat,
                (more - 1) as nat,
            );
        },
        Ok(RecordTag::Pdir) => {
            let (name, end) = name_at(s, offset + 48, utf32)->Ok_0;
            if may_contain(ggpk_path(base, name), wanted) {
                lemma_deeper_in_children(
                    s,
                    utf32,
                    end + 4,
                    12,
                    0,
                    u32_at(s, offset + 12) as int,
                    ggpk_path(base, name),
                    wanted,
                    (depth - 1) as nat,
                    (more - 1) as nat,
                );
            }
        },
        _ => {},
    }
}

proof fn lemma_deeper_in_children(
    s: Seq<u8>,
    utf32: bool,
    pos: int,
    stride: int,
    i: int,
    n: int,
    base: Seq<char>,
    wanted: Seq<char>,
    depth: nat,
    more: nat,
)
    requires
        file_in_children(s, utf32, pos, stride, i, n, base, wanted, depth) is Ok,
        depth <= more,
    ensures
        file_in_children(s, utf32, pos, stride, i, n, base, wanted, more) == file_in_children(
            s,
            utf32,
            pos,
            stride,
            i,
            n,
            base,
            wanted,
            depth,
        ),
    decreases depth, 1 + n - i,
{
    if i < n {
        let child = u64_at(s, pos + stride * i) as int;
        lemma_deeper(s, utf32, child, base, wanted, depth, more);
        if found_nothing(file_below(s, utf32, child, base, wanted, depth)) {
            lemma_deeper_in_children(s, utf32, pos, stride, i + 1, n, base, wanted, depth, more);
        }
    }
}

/// Searches that come to an end agree.
pub proof fn lemma_searches_agree(
    s: Seq<u8>,
    utf32: bool,
    offset: int,
    base: Seq<char>,
    wanted: Seq<char>,
    a: nat,
    b: nat,
)
    requires
        file_below(s, utf32, offset, base, wanted, a) is Ok,
        file_below(s, utf32, offset, base, wanted, b) is Ok,
    ensures
        file_below(s, utf32, offset, base, wanted, a) == file_below(
            s,
            utf32,
            offset,
            base,
            wanted,
            b,
        ),
{
    if a <= b {
        lemma_deeper(s, utf32, offset, base, wanted, a, b);
    } else {
        lemma_deeper(s, utf32, offset, base, wanted, b, a);
    }
}

/// Where the search comes to the pointer, the records behind it are clear of it;
/// and where it finds nothing, there is nothing behind the pointer.
pub proof fn lemma_at_pointer(
    s: Seq<u8>,
    utf32: bool,
    p: int,
    offset: int,
    base: Seq<char>,
    wanted: Seq<char>,
    depth: nat,
)
    requires
        clear_of(s, utf32, p, offset, base, depth),
        depth_at_pointer(s, utf32, p, offset, base, wanted, depth) is Some,
    ensures
        ({
            let left = depth_at_pointer(s, utf32, p, offset, base, wanted, depth)->0;
            &&& clear_of(s, utf32, p, u64_at(s, p) as int, Seq::empty(), left)
            &&& found_nothing(file_below(s, utf32, offset, base, wanted, depth)) ==> found_nothing(
                behind_pointer(s, utf32, p, wanted, left),
            )
            &&& file_below(s, utf32, offset, base, wanted, depth) is Ok ==> behind_pointer(
                s,
                utf32,
                p,
                wanted,
                left,
            ) is Ok
        }),
    decreases depth, 0int,
{
    let size = u32_at(s, offset) as int;
    match tag_of(s.subrange(offset + 4, offset + 8)) {
        Ok(RecordTag::Ggpk) => {
            lemma_at_pointer_in_children(
                s,
                utf32,
                p,
                offset + 12,
                8,
                0,
                offset_count(size),
                base,
                wanted,
                (depth - 1) as nat,
            );
        },
        Ok(RecordTag::Pdir) => {
            let (name, end) = name_at(s, offset + 48, utf32)->Ok_0;
            lemma_at_pointer_in_children(
                s,
                utf32,
                p,
                end + 4,
                12,
                0,
                u32_at(s, offset + 12) as int,
                ggpk_path(base, name),
                wanted,
                (depth - 1) as nat,
            );
        },
        _ => {},
    }
}

proof fn lemma_at_pointer_in_children(
    s: Seq<u8>,
    utf32: bool,
    p: int,
    pos: int,
    stride: int,
    i: int,
    n: int,
    base: Seq<char>,
    wanted: Seq<char>,
    depth: nat,
)
    requires
        children_clear_of(s, utf32, p, pos, stride, i, n, base, depth),
        depth_at_pointer_in_children(s, utf32, p, pos, stride, i, n, base, wanted, depth) is Some,
    ensures
        ({
            let left = depth_at_pointer_in_children(
                s,
                utf32,
                p,
                pos,
                stride,
                i,
                n,
                base,
                wanted,
                depth,
            )->0;
            let r = file_in_children(s, utf32, pos, stride, i, n, base, wanted, depth);
            &&& clear_of(s, utf32, p, u64_at(s, p) as int, Seq::empty(), left)
            &&& found_nothing(r) ==> found_nothing(behind_pointer(s, utf32, p, wanted, left))
            &&& r is Ok ==> behind_pointer(s, utf32, p, wanted, left) is Ok
        }),
    decreases depth, 1 + n - i,
{
    let at = pos + stride * i;
    let child = u64_at(s, at) as int;
    if at == p {
        reveal(behind_pointer);
        assert(base =~= Seq::<char>::empty());
    } else if depth_at_pointer(s, utf32, p, child, base, wanted, depth) is Some {
        lemma_at_pointer(s, utf32, p, child, base, wanted, depth);
    } else {
        lemma_at_pointer_in_children(s, utf32, p, pos, stride, i + 1, n, base, wanted, depth);
    }
}

/// Below a folder with a name, no search comes to the pointer.
pub proof fn lemma_no_pointer_below(
    s: Seq<u8>,
    utf32: bool,
    p: int,
    offset: int,
    base: Seq<char>,
    wanted: Seq<char>,
    depth: nat,
)
    requires
        clear_of(s, utf32, p, offset, base, depth),
        base.len() > 0,
    ensures
        depth_at_pointer(s, utf32, p, offset, base, wanted, depth) is None,
    decreases depth, 0int,
{
    if depth > 0 && offset + 8 <= s.len() {
        let size = u32_at(s, offset) as int;
        match tag_of(s.subrange(offset + 4, offset + 8)) {
            Ok(RecordTag::Ggpk) => {
                lemma_no_pointer_in_children(
                    s,
                    utf32,
                    p,
                    offset + 12,
                    8,
                    0,
                    offset_count(size),
                    base,
                    wanted,
                    (depth - 1) as nat,
                );
            },
            Ok(RecordTag::Pdir) => {
                if name_at(s, offset + 48, utf32) is Ok {
                    let (name, end) = name_at(s, offset + 48, utf32)->Ok_0;
                    lemma_no_pointer_in_children(
                        s,
                        utf32,
                        p,
                        end + 4,
                        12,
                        0,
                        u32_at(s, offset + 12) as int,
                        ggpk_path(base, name),
                        wanted,
                        (depth - 1) as nat,
                    );
                }
            },
            _ => {},
        }
    }
}

proof fn lemma_no_pointer_in_children(
    s: Seq<u8>,
    utf32: bool,
    p: int,
    pos: int,
    stride: int,
    i: int,
    n: int,
    base: Seq<char>,
    wanted: Seq<char>,
    depth: nat,
)
    requires
        children_clear_of(s, utf32, p, pos, stride, i, n, base, depth),
        base.len() > 0,
    ensures
        depth_at_pointer_in_children(s, utf32, p, pos, stride, i, n, base, wanted, depth) is None,
    decreases depth, 1 + n - i,
{
    let at = pos + stride * i;
    if i < n && at + 8 <= s.len() {
        lemma_no_pointer_below(s, utf32, p, u64_at(s, at) as int, base, wanted, depth);
        lemma_no_pointer_in_children(s, utf32, p, pos, stride, i + 1, n, base, wanted, depth);
    }
}

/// Whether nothing is behind the new pointer where nothing was behind the old.
pub open spec fn nothing_new(
    s: Seq<u8>,
    t: Seq<u8>,
    utf32: bool,
    p: int,
    wanted: Seq<char>,
    x: nat,
) -> bool {
    forall|e: nat|
        found_nothing(#[trigger] behind_pointer(s, utf32, p, wanted, e)) && clear_of(
            s,
            utf32,
            p,
            u64_at(s, p) as int,
            Seq::empty(),
            e,
        ) ==> found_nothing(behind_pointer(t, utf32, p, wanted, (e + x) as nat))
}

/// Whether a file that was behind the old pointer is behind the new one.
pub open spec fn still_there(
    s: Seq<u8>,
    t: Seq<u8>,
    utf32: bool,
    p: int,
    wanted: Seq<char>,
    x: nat,
    left: nat,
) -> bool {
    found_file(behind_pointer(s, utf32, p, wanted, left)) ==> behind_pointer(
        t,
        utf32,
        p,
        wanted,
        (left + x) as nat,
    ) == behind_pointer(s, utf32, p, wanted, left)
}

/// Whether a search may come to the pointer, or not, without giving another
/// result.
pub open spec fn pointer_serves(
    s: Seq<u8>,
    t: Seq<u8>,
    utf32: bool,
    p: int,
    wanted: Seq<char>,
    x: nat,
    left: Option<nat>,
) -> bool {
    match left {
        None => true,
        Some(left) => nothing_new(s, t, utf32, p, wanted, x) && still_there(
            s,
            t,
            utf32,
            p,
            wanted,
            x,
            left,
        ),
    }
}

/// Whether the data of a file lies in the archive and outside of the pointer.
pub open spec fn span_clear(r: Result<Option<(int, int)>, GgpkError>, len: int, p: int) -> bool {
    match r {
        Ok(Some((begin, n))) => 0 <= begin && 0 <= n && begin + n <= len && apart(
            begin,
            begin + n,
            p,
        ),
        _ => true,
    }
}

/// The data of a file that is found lies outside of the pointer.
pub proof fn lemma_span_clear(
    s: Seq<u8>,
    utf32: bool,
    p: int,
    offset: int,
    base: Seq<char>,
    wanted: Seq<char>,
    depth: nat,
)
    requires
        0 <= offset,
        clear_of(s, utf32, p, offset, base, depth),
    ensures
        span_clear(file_below(s, utf32, offset, base, wanted, depth), s.len() as int, p),
    decreases depth, 0int,
{
    if depth > 0 && offset + 8 <= s.len() {
        let size = u32_at(s, offset) as int;
        match tag_of(s.subrange(offset + 4, offset + 8)) {
            Ok(RecordTag::Ggpk) => {
                lemma_span_clear_in_children(
                    s,
                    utf32,
                    p,
                    offset + 12,
                    8,
                    0,
                    offset_count(size),
                    base,
                    wanted,
                    (depth - 1) as nat,
                );
            },
            Ok(RecordTag::Pdir) => {
                if name_at(s, offset + 48, utf32) is Ok {
                    let (name, end) = name_at(s, offset + 48, utf32)->Ok_0;
                    lemma_name_end(s, offset + 48, utf32);
                    lemma_span_clear_in_children(
                        s,
                        utf32,
                        p,
                        end + 4,
                        12,
                        0,
                        u32_at(s, offset + 12) as int,
                        ggpk_path(base, name),
                        wanted,
                        (depth - 1) as nat,
                    );
                }
            },
            Ok(RecordTag::File) => {
                if name_at(s, offset + 44, utf32) is Ok {
                    lemma_name_end(s, offset + 44, utf32);
                }
            },
            _ => {},
        }
    }
}

proof fn lemma_span_clear_in_children(
    s: Seq<u8>,
    utf32: bool,
    p: int,
    pos: int,
    stride: int,
    i: int,
    n: int,
    base: Seq<char>,
    wanted: Seq<char>,
    depth: nat,
)
    requires
        children_clear_of(s, utf32, p, pos, stride, i, n, base, depth),
    ensures
        span_clear(
            file_in_children(s, utf32, pos, stride, i, n, base, wanted, depth),
            s.len() as int,
            p,
        ),
    decreases depth, 1 + n - i,
{
    let at = pos + stride * i;
    if i < n && at + 8 <= s.len() {
        lemma_span_clear(s, utf32, p, u64_at(s, at) as int, base, wanted, depth);
        lemma_span_clear_in_children(s, utf32, p, pos, stride, i + 1, n, base, wanted, depth);
    }
}

/// A search finds the same, whatever stands at the pointer, if what is behind the
/// pointer serves as well.
pub proof fn lemma_same_search(
    s: Seq<u8>,
    t: Seq<u8>,
    utf32: bool,
    p: int,
    offset: int,
    base: Seq<char>,
    wanted: Seq<char>,
    depth: nat,
    x: nat,
)
    requires
        same_but_pointer(s, t, p),
        0 <= offset,
        clear_of(s, utf32, p, offset, base, depth),
        file_below(s, utf32, offset, base, wanted, depth) is Ok,
        pointer_serves(
            s,
            t,
            utf32,
            p,
            wanted,
            x,
            depth_at_pointer(s, utf32, p, offset, base, wanted, depth),
        ),
    ensures
        file_below(t, utf32, offset, base, wanted, (depth + x) as nat) == file_below(
            s,
            utf32,
            offset,
            base,
            wanted,
            depth,
        ),
    decreases depth, 0int,
{
    let size = u32_at(s, offset) as int;
    match tag_of(s.subrange(offset + 4, offset + 8)) {
        Ok(RecordTag::Ggpk) => {
            lemma_same_part(s, t, p, offset, offset + 4);
            lemma_same_part(s, t, p, offset + 4, offset + 8);
            lemma_same_search_in_children(
                s,
                t,
                utf32,
                p,
                offset + 12,
                8,
                0,
                offset_count(size),
                base,
                wanted,
                (depth - 1) as nat,
                x,
            );
        },
        Ok(RecordTag::Pdir) => {
            let (name, end) = name_at(s, offset + 48, utf32)->Ok_0;
            lemma_name_end(s, offset + 48, utf32);
            lemma_same_part(s, t, p, offset, offset + 4);
            lemma_same_part(s, t, p, offset + 4, offset + 8);
            lemma_same_part(s, t, p, offset + 12, offset + 16);
            lemma_same_name(s, t, p, offset + 48, utf32);
            if may_contain(ggpk_path(base, name), wanted) {
                lemma_same_search_in_children(
                    s,
                    t,
                    utf32,
                    p,
                    end + 4,
                    12,
                    0,
                    u32_at(s, offset + 12) as int,
                    ggpk_path(base, name),
                    wanted,
                    (depth - 1) as nat,
                    x,
                );
            }
        },
        Ok(RecordTag::File) => {
            let (name, end) = name_at(s, offset + 44, utf32)->Ok_0;
            lemma_name_end(s, offset + 44, utf32);
            lemma_same_part(s, t, p, offset, offset + 4);
            lemma_same_part(s, t, p, offset + 4, offset + 8);
            lemma_same_name(s, t, p, offset + 44, utf32);
        },
        _ => {
            lemma_same_part(s, t, p, offset + 4, offset + 8);
        },
    }
}

proof fn lemma_same_search_in_children(
    s: Seq<u8>,
    t: Seq<u8>,
    utf32: bool,
    p: int,
    pos: int,
    stride: int,
    i: int,
    n: int,
    base: Seq<char>,
    wanted: Seq<char>,
    depth: nat,
    x: nat,
)
    requires
        same_but_pointer(s, t, p),
        0 <= pos,
        0 <= stride,
        0 <= i,
        children_clear_of(s, utf32, p, pos, stride, i, n, base, depth),
        file_in_children(s, utf32, pos, stride, i, n, base, wanted, depth) is Ok,
        pointer_serves(
            s,
            t,
            utf32,
            p,
            wanted,
            x,
            depth_at_pointer_in_children(s, utf32, p, pos, stride, i, n, base, wanted, depth),
        ),
    ensures
        file_in_children(t, utf32, pos, stride, i, n, base, wanted, (depth + x) as nat)
            == file_in_children(s, utf32, pos, stride, i, n, base, wanted, depth),
    decreases depth, 1 + n - i,
{
    if i < n {
        let at = pos + stride * i;
        assert(at >= 0) by (nonlinear_arith)
            requires
                at == pos + stride * i,
                0 <= pos,
                0 <= stride,
                0 <= i,
        ;
        let child = u64_at(s, at) as int;
        let r = file_below(s, utf32, child, base, wanted, depth);
        let reached = depth_at_pointer(s, utf32, p, child, base, wanted, depth);
        let rest = depth_at_pointer_in_children(
            s,
            utf32,
            p,
            pos,
            stride,
            i + 1,
            n,
            base,
            wanted,
            depth,
        );
        if at == p {
            reveal(behind_pointer);
            assert(base =~= Seq::<char>::empty());
            assert(r == behind_pointer(s, utf32, p, wanted, depth));
            if found_nothing(r) {
                assert(found_nothing(behind_pointer(t, utf32, p, wanted, (depth + x) as nat)));
                lemma_later_serves(s, t, utf32, p, wanted, x, depth, rest);
            }
        } else {
            lemma_same_part(s, t, p, at, at + 8);
            lemma_same_search(s, t, utf32, p, child, base, wanted, depth, x);
            if found_nothing(r) && reached is Some {
                lemma_at_pointer(s, utf32, p, child, base, wanted, depth);
                lemma_later_serves(s, t, utf32, p, wanted, x, reached->0, rest);
            }
        }
        if found_nothing(r) {
            lemma_same_search_in_children(
                s,
                t,
                utf32,
                p,
                pos,
                stride,
                i + 1,
                n,
                base,
                wanted,
                depth,
                x,
            );
        }
    }
}

/// Where nothing is behind the pointer, coming to it again gives nothing either.
proof fn lemma_later_serves(
    s: Seq<u8>,
    t: Seq<u8>,
    utf32: bool,
    p: int,
    wanted: Seq<char>,
    x: nat,
    seen: nat,
    later: Option<nat>,
)
    requires
        nothing_new(s, t, utf32, p, wanted, x),
        found_nothing(behind_pointer(s, utf32, p, wanted, seen)),
    ensures
        pointer_serves(s, t, utf32, p, wanted, x, later),
{
    reveal(behind_pointer);
    if later is Some && found_file(behind_pointer(s, utf32, p, wanted, later->0)) {
        lemma_searches_agree(
            s,
            utf32,
            u64_at(s, p) as int,
            Seq::empty(),
            wanted,
            seen,
            later->0,
        );
    }
}

/// A search that comes to the pointer finds the file that is behind the new one.
pub proof fn lemma_found_behind_pointer(
    s: Seq<u8>,
    t: Seq<u8>,
    utf32: bool,
    p: int,
    offset: int,
    base: Seq<char>,
    wanted: Seq<char>,
    depth: nat,
    x: nat,
)
    requires
        same_but_pointer(s, t, p),
        0 <= offset,
        clear_of(s, utf32, p, offset, base, depth),
        depth_at_pointer(s, utf32, p, offset, base, wanted, depth) is Some,
        found_file(
            behind_pointer(
                t,
                utf32,
                p,
                wanted,
                (depth_at_pointer(s, utf32, p, offset, base, wanted, depth)->0 + x) as nat,
            ),
        ),
    ensures
        file_below(t, utf32, offset, base, wanted, (depth + x) as nat) == behind_pointer(
            t,
            utf32,
            p,
            wanted,
            (depth_at_pointer(s, utf32, p, offset, base, wanted, depth)->0 + x) as nat,
        ),
    decreases depth, 0int,
{
    let size = u32_at(s, offset) as int;
    match tag_of(s.subrange(offset + 4, offset + 8)) {
        Ok(RecordTag::Ggpk) => {
            lemma_same_part(s, t, p, offset, offset + 4);
            lemma_same_part(s, t, p, offset + 4, offset + 8);
            lemma_found_in_children(
                s,
                t,
                utf32,
                p,
                offset + 12,
                8,
                0,
                offset_count(size),
                base,
                wanted,
                (depth - 1) as nat,
                x,
            );
        },
        Ok(RecordTag::Pdir) => {
            let (name, end) = name_at(s, offset + 48, utf32)->Ok_0;
            lemma_name_end(s, offset + 48, utf32);
            lemma_same_part(s, t, p, offset, offset + 4);
            lemma_same_part(s, t, p, offset + 4, offset + 8);
            lemma_same_part(s, t, p, offset + 12, offset + 16);
            lemma_same_name(s, t, p, offset + 48, utf32);
            lemma_found_in_children(
                s,
                t,
                utf32,
                p,
                end + 4,
                12,
                0,
                u32_at(s, offset + 12) as int,
                ggpk_path(base, name),
                wanted,
                (depth - 1) as nat,
                x,
            );
        },
        _ => {},
    }
}

proof fn lemma_found_in_children(
    s: Seq<u8>,
    t: Seq<u8>,
    utf32: bool,
    p: int,
    pos: int,
    stride: int,
    i: int,
    n: int,
    base: Seq<char>,
    wanted: Seq<char>,
    depth: nat,
    x: nat,
)
    requires
        same_but_pointer(s, t, p),
        0 <= pos,
        0 <= stride,
        0 <= i,
        children_clear_of(s, utf32, p, pos, stride, i, n, base, depth),
        depth_at_pointer_in_children(s, utf32, p, pos, stride, i, n, base, wanted, depth) is Some,
        found_file(
            behind_pointer(
                t,
                utf32,
                p,
                wanted,
                (depth_at_pointer_in_children(
                    s,
                    utf32,
                    p,
                    pos,
                    stride,
                    i,
                    n,
                    base,
                    wanted,
                    depth,
                )->0 + x) as nat,
            ),
        ),
    ensures
        file_in_children(t, utf32, pos, stride, i, n, base, wanted, (depth + x) as nat)
            == behind_pointer(
            t,
            utf32,
            p,
            wanted,
            (depth_at_pointer_in_children(
                s,
                utf32,
                p,
                pos,
                stride,
                i,
                n,
                base,
                wanted,
                depth,
            )->0 + x) as nat,
        ),
    decreases depth, 1 + n - i,
{
    let at = pos + stride * i;
    assert(at >= 0) by (nonlinear_arith)
        requires
            at == pos + stride * i,
            0 <= pos,
            0 <= stride,
            0 <= i,
    ;
    let child = u64_at(s, at) as int;
    if at == p {
        reveal(behind_pointer);
        assert(base =~= Seq::<char>::empty());
    } else {
        lemma_same_part(s, t, p, at, at + 8);
        if depth_at_pointer(s, utf32, p, child, base, wanted, depth) is Some {
            lemma_found_behind_pointer(s, t, utf32, p, child, base, wanted, depth, x);
        } else {
            lemma_same_search(s, t, utf32, p, child, base, wanted, depth, x);
            lemma_found_in_children(
                s,
                t,
                utf32,
                p,
                pos,
                stride,
                i + 1,
                n,
                base,
                wanted,
                depth,
                x,
            );
        }
    }
}

} // verus!
