//! Texts with some ranges taken out or replaced, and what replacing a text does.

use crate::text::{
    contains_text, find_from, lemma_find_from, lemma_find_shift, occurs_at, replaced,
};
use vstd::prelude::*;

verus! {

/// Whether the ranges lie between `from` and `to`, hold something, and come one
/// behind the other.
pub open spec fn are_ranges(cuts: Seq<(int, int)>, from: int, to: int) -> bool {
    &&& forall|k: int|
        0 <= k < cuts.len() ==> from <= (#[trigger] cuts[k]).0 < cuts[k].1 <= to
    &&& forall|k: int, l: int|
        0 <= k < l < cuts.len() ==> (#[trigger] cuts[k]).1 <= (#[trigger] cuts[l]).0
}

/// Whether `i` lies in one of the ranges.
pub open spec fn in_ranges(cuts: Seq<(int, int)>, i: int) -> bool {
    exists|k: int| 0 <= k < cuts.len() && (#[trigger] cuts[k]).0 <= i < cuts[k].1
}

/// The text from `pos` on with `fill` in the place of each of the ranges.
pub open spec fn spliced(t: Seq<char>, cuts: Seq<(int, int)>, fill: Seq<char>, pos: int) -> Seq<
    char,
>
    decreases cuts.len(),
{
    if cuts.len() == 0 {
        t.subrange(pos, t.len() as int)
    } else {
        t.subrange(pos, cuts[0].0) + fill + spliced(t, cuts.drop_first(), fill, cuts[0].1)
    }
}

/// A range in front of others.
pub open spec fn with_range(a: int, b: int, cuts: Seq<(int, int)>) -> Seq<(int, int)> {
    seq![(a, b)] + cuts
}

pub proof fn lemma_with_range(a: int, b: int, cuts: Seq<(int, int)>, from: int, to: int)
    requires
        from <= a < b <= to,
        are_ranges(cuts, b, to),
    ensures
        ({
            let all = with_range(a, b, cuts);
            &&& are_ranges(all, from, to)
            &&& all[0] == (a, b)
            &&& all.drop_first() == cuts
            &&& forall|i: int| #[trigger] in_ranges(all, i) <==> a <= i < b || in_ranges(cuts, i)
        }),
{
    let all = with_range(a, b, cuts);
    assert(all.drop_first() =~= cuts);
    assert forall|k: int| 0 <= k < all.len() implies from <= (#[trigger] all[k]).0 < all[k].1
        <= to by {
        if k > 0 {
            assert(all[k] == cuts[k - 1]);
        }
    }
    assert forall|k: int, l: int| 0 <= k < l < all.len() implies (#[trigger] all[k]).1 <= (
    #[trigger] all[l]).0 by {
        assert(all[l] == cuts[l - 1]);
        if k > 0 {
            assert(all[k] == cuts[k - 1]);
        }
    }
    assert forall|i: int| #[trigger] in_ranges(all, i) <==> a <= i < b || in_ranges(cuts, i) by {
        if in_ranges(all, i) {
            let k = choose|k: int| 0 <= k < all.len() && (#[trigger] all[k]).0 <= i < all[k].1;
            if k > 0 {
                assert(all[k] == cuts[k - 1]);
            }
        }
        if a <= i < b {
            assert(all[0].0 <= i < all[0].1);
        }
        if in_ranges(cuts, i) {
            let k = choose|k: int| 0 <= k < cuts.len() && (#[trigger] cuts[k]).0 <= i < cuts[k].1;
            assert(all[k + 1] == cuts[k]);
        }
    }
}

/// Whether the ranges are places of `from` in `s` that do not overlap, such that
/// every other place overlaps one of them.
pub open spec fn are_places(s: Seq<char>, from: Seq<char>, cuts: Seq<(int, int)>, pos: int) -> bool {
    &&& are_ranges(cuts, pos, s.len() as int)
    &&& forall|k: int|
        0 <= k < cuts.len() ==> occurs_at(s, (#[trigger] cuts[k]).0, from) && cuts[k].1
            == cuts[k].0 + from.len()
    &&& forall|i: int| pos <= i && #[trigger] occurs_at(s, i, from) ==> in_ranges(cuts, i)
}

proof fn lemma_replaced_places(s: Seq<char>, from: Seq<char>, to: Seq<char>, pos: int) -> (cuts: Seq<
    (int, int),
>)
    requires
        from.len() > 0,
        0 <= pos <= s.len(),
    ensures
        are_places(s, from, cuts, pos),
        replaced(s.subrange(pos, s.len() as int), from, to) == spliced(s, cuts, to, pos),
    decreases s.len() - pos,
{
    let rest = s.subrange(pos, s.len() as int);
    lemma_find_shift(s, from, pos, pos);
    lemma_find_from(s, from, pos);
    lemma_find_from(rest, from, 0);
    match find_from(rest, from, 0) {
        None => Seq::empty(),
        Some(j) => {
            let a = pos + j;
            let b = a + from.len();
            let more = lemma_replaced_places(s, from, to, b as int);
            let cuts = with_range(a, b as int, more);
            lemma_with_range(a, b as int, more, pos, s.len() as int);
            assert forall|k: int| 0 <= k < cuts.len() implies occurs_at(
                s,
                (#[trigger] cuts[k]).0,
                from,
            ) && cuts[k].1 == cuts[k].0 + from.len() by {
                if k > 0 {
                    assert(cuts[k] == more[k - 1]);
                }
            }
            assert forall|i: int| pos <= i && #[trigger] occurs_at(s, i, from) implies in_ranges(
                cuts,
                i,
            ) by {
                if i >= b {
                    assert(in_ranges(more, i));
                }
            }
            assert(rest.subrange(0, j) =~= s.subrange(pos, a));
            assert(rest.subrange(j + from.len(), rest.len() as int) =~= s.subrange(
                b as int,
                s.len() as int,
            ));
            cuts
        },
    }
}

/// Replacing a text puts the other one in its place everywhere: at places that do
/// not overlap, so that no place is left out but for those that overlap one of them.
/// All that stands between them stays.
pub proof fn law_every_place_is_replaced(s: Seq<char>, from: Seq<char>, to: Seq<char>) -> (cuts: Seq<
    (int, int),
>)
    requires
        from.len() > 0,
    ensures
        are_places(s, from, cuts, 0),
        replaced(s, from, to) == spliced(s, cuts, to, 0),
{
    assert(s.subrange(0, s.len() as int) =~= s);
    lemma_replaced_places(s, from, to, 0)
}

/// A text that does not hold what is to be replaced stays as it is.
pub proof fn law_nothing_to_replace(s: Seq<char>, from: Seq<char>, to: Seq<char>)
    requires
        from.len() > 0,
        !contains_text(s, from),
    ensures
        replaced(s, from, to) == s,
{
    let cuts = law_every_place_is_replaced(s, from, to);
    if cuts.len() > 0 {
        assert(occurs_at(s, cuts[0].0, from));
    }
    assert(spliced(s, cuts, to, 0) =~= s);
}

/// Whether `p` cannot stand at `d` places behind the beginning of `q`: the two differ
/// somewhere.
pub open spec fn clash(p: Seq<char>, q: Seq<char>, d: int) -> bool {
    exists|j: int| 0 <= j < p.len() && 0 <= j + d < q.len() && #[trigger] p[j] != q[j + d]
}

/// Where nothing that begins at `i` can overlap what is put in, what is replaced is
/// not in the result.
proof fn lemma_none_left_at(
    s: Seq<char>,
    from: Seq<char>,
    to: Seq<char>,
    front: Seq<char>,
    pos: int,
    cuts: Seq<(int, int)>,
    i: int,
)
    requires
        from.len() > 0,
        are_places(s, from, cuts, pos),
        0 <= pos <= s.len(),
        forall|d: int| -from.len() < d < to.len() ==> #[trigger] clash(from, to, d),
        to.len() > 0,
    ensures
        i >= front.len() ==> !occurs_at(front + spliced(s, cuts, to, pos), i, from),
    decreases cuts.len(),
{
    let r = front + spliced(s, cuts, to, pos);
    let f = front.len() as int;
    if i >= f && occurs_at(r, i, from) {
        if cuts.len() == 0 {
            lemma_not_in_gap(s, from, cuts, pos, s.len() as int, front, Seq::empty(), r, i);
        } else {
            let end = cuts[0].0;
            let gap = end - pos;
            let more = cuts.drop_first();
            let tail = spliced(s, more, to, cuts[0].1);
            let head = front + s.subrange(pos, end) + to;
            assert(r =~= head + tail);
            if i + from.len() <= f + gap {
                assert(r =~= front + s.subrange(pos, end) + (to + tail));
                lemma_not_in_gap(s, from, cuts, pos, end, front, to + tail, r, i);
            } else if i < f + gap + to.len() {
                lemma_no_overlap(from, to, front + s.subrange(pos, end), tail, r, i);
            } else {
                lemma_drop_place(s, from, cuts, pos);
                lemma_none_left_at(s, from, to, head, cuts[0].1, more, i);
            }
        }
    }
}

/// What is replaced does not stand in what lies before the first place.
proof fn lemma_not_in_gap(
    s: Seq<char>,
    from: Seq<char>,
    cuts: Seq<(int, int)>,
    pos: int,
    end: int,
    front: Seq<char>,
    tail: Seq<char>,
    r: Seq<char>,
    i: int,
)
    requires
        from.len() > 0,
        are_places(s, from, cuts, pos),
        0 <= pos <= end <= s.len(),
        if cuts.len() == 0 {
            end == s.len()
        } else {
            end == cuts[0].0
        },
        r == front + s.subrange(pos, end) + tail,
        front.len() <= i,
        i + from.len() <= front.len() + (end - pos),
    ensures
        !occurs_at(r, i, from),
{
    if occurs_at(r, i, from) {
        let at = pos + (i - front.len());
        assert(s.subrange(at, at + from.len()) =~= r.subrange(i, i + from.len()));
        assert(occurs_at(s, at, from));
        assert(in_ranges(cuts, at));
        let k = choose|k: int| 0 <= k < cuts.len() && (#[trigger] cuts[k]).0 <= at < cuts[k].1;
        if k > 0 {
            assert(cuts[0].1 <= cuts[k].0);
        }
    }
}

/// What is replaced does not overlap what was put in.
proof fn lemma_no_overlap(
    from: Seq<char>,
    to: Seq<char>,
    head: Seq<char>,
    tail: Seq<char>,
    r: Seq<char>,
    i: int,
)
    requires
        r == head + to + tail,
        i < head.len() + to.len(),
        i + from.len() > head.len(),
        forall|d: int| -from.len() < d < to.len() ==> #[trigger] clash(from, to, d),
    ensures
        !occurs_at(r, i, from),
{
    if occurs_at(r, i, from) {
        let d = i - head.len();
        assert(clash(from, to, d));
        let j = choose|j: int|
            0 <= j < from.len() && 0 <= j + d < to.len() && #[trigger] from[j] != to[j + d];
        assert(r[i + j] == to[j + d]);
        assert(r.subrange(i, i + from.len())[j] == r[i + j]);
    }
}

proof fn lemma_drop_place(s: Seq<char>, from: Seq<char>, cuts: Seq<(int, int)>, pos: int)
    requires
        from.len() > 0,
        cuts.len() > 0,
        are_places(s, from, cuts, pos),
    ensures
        are_places(s, from, cuts.drop_first(), cuts[0].1),
{
    let more = cuts.drop_first();
    let b = cuts[0].1;
    assert forall|k: int| 0 <= k < more.len() implies b <= (#[trigger] more[k]).0 < more[k].1
        <= s.len() && occurs_at(s, more[k].0, from) && more[k].1 == more[k].0 + from.len() by {
        assert(more[k] == cuts[k + 1]);
        assert(cuts[0].1 <= cuts[k + 1].0);
    }
    assert forall|k: int, l: int| 0 <= k < l < more.len() implies (#[trigger] more[k]).1 <= (
    #[trigger] more[l]).0 by {
        assert(more[k] == cuts[k + 1] && more[l] == cuts[l + 1]);
    }
    assert forall|i: int| b <= i && #[trigger] occurs_at(s, i, from) implies in_ranges(more, i) by {
        let k = choose|k: int| 0 <= k < cuts.len() && (#[trigger] cuts[k]).0 <= i < cuts[k].1;
        assert(k > 0);
        assert(more[k - 1] == cuts[k]);
    }
}

/// Where what is put in cannot overlap what is replaced, in any place, nothing of the
/// latter is left.
pub proof fn law_nothing_is_left_of_what_clashes(s: Seq<char>, from: Seq<char>, to: Seq<char>)
    requires
        from.len() > 0,
        to.len() > 0,
        forall|d: int| -from.len() < d < to.len() ==> #[trigger] clash(from, to, d),
    ensures
        !contains_text(replaced(s, from, to), from),
{
    let cuts = law_every_place_is_replaced(s, from, to);
    let none: Seq<char> = Seq::empty();
    let r = replaced(s, from, to);
    assert(none + r =~= r);
    assert forall|i: int| !occurs_at(r, i, from) by {
        if i >= 0 {
            lemma_none_left_at(s, from, to, none, 0, cuts, i);
        }
    }
}

} // verus!
