//! What renaming settings does: each name gets another first letter, so that the game
//! does not find it, and nothing else changes.

use crate::patches::PatchId;
use crate::splices::{
    are_places, are_ranges, clash, in_ranges, law_every_place_is_replaced,
    law_nothing_is_left_of_what_clashes, spliced,
};
use crate::text::{contains_text, occurs_at, replaced};
use crate::transforms::{
    clouds_gone, environment_pairs, environment_text, fog_pairs, law_utf16_file_reads_back,
    lemma_without_marks, light_pairs, pairs_replaced, rain_stopped, regex_replaced, shadow_pairs,
    transformed, utf16_file, utf16_file_text, without_marks, TransformError,
};
use crate::utf16::{byte_units, utf16_text};
use vstd::prelude::*;

verus! {

/// Whether a text is a name in quotes. (None of the names holds the letter that is
/// put in.)
pub open spec fn is_quoted_name(n: Seq<char>) -> bool {
    &&& n.len() >= 3
    &&& n[0] == '"'
    &&& n[n.len() - 1] == '"'
    &&& forall|i: int| 0 < i < n.len() - 1 ==> #[trigger] n[i] != '"'
    &&& forall|i: int| 0 <= i < n.len() ==> #[trigger] n[i] != 'x'
}

/// Whether one of the names stands at `i`.
pub open spec fn one_stands_at(t: Seq<char>, names: Seq<Seq<char>>, i: int) -> bool {
    exists|j: int| 0 <= j < names.len() && occurs_at(t, i, #[trigger] names[j])
}

/// Whether `u` is `t` with the first letter of each of the names turned into an `x`,
/// and nothing else changed. A name that shares its first quote with the same name in
/// front of it may stay.
pub open spec fn is_renamed(t: Seq<char>, names: Seq<Seq<char>>, u: Seq<char>) -> bool {
    &&& u.len() == t.len()
    &&& forall|i: int|
        0 <= i < t.len() ==> #[trigger] u[i] == t[i] || (u[i] == 'x' && one_stands_at(
            t,
            names,
            i - 1,
        ))
    &&& forall|i: int, j: int|
        0 <= j < names.len() && #[trigger] occurs_at(t, i, names[j]) ==> u[i + 1] == 'x'
            || occurs_at(t, i - (names[j].len() - 1), names[j])
}

/// Whether the ranges come one behind the other and have length `n`.
spec fn are_ranges_of(cuts: Seq<(int, int)>, n: nat, from: int, to: int) -> bool {
    &&& are_ranges(cuts, from, to)
    &&& forall|k: int| 0 <= k < cuts.len() ==> (#[trigger] cuts[k]).1 == cuts[k].0 + n
}

proof fn lemma_drop_range(cuts: Seq<(int, int)>, n: nat, from: int, to: int)
    requires
        are_ranges_of(cuts, n, from, to),
        cuts.len() > 0,
    ensures
        are_ranges_of(cuts.drop_first(), n, cuts[0].1, to),
        from <= cuts[0].0 < cuts[0].1 <= to,
        cuts[0].1 == cuts[0].0 + n,
{
    let more = cuts.drop_first();
    assert forall|k: int| 0 <= k < more.len() implies cuts[0].1 <= (#[trigger] more[k]).0
        < more[k].1 <= to && more[k].1 == more[k].0 + n by {
        assert(more[k] == cuts[k + 1]);
        assert(cuts[0].1 <= cuts[k + 1].0);
    }
    assert forall|k: int, l: int| 0 <= k < l < more.len() implies (#[trigger] more[k]).1 <= (
    #[trigger] more[l]).0 by {
        assert(cuts[k + 1].1 <= cuts[l + 1].0);
    }
}

proof fn lemma_spliced_len(s: Seq<char>, to: Seq<char>, cuts: Seq<(int, int)>, pos: int)
    requires
        are_ranges_of(cuts, to.len(), pos, s.len() as int),
        0 <= pos <= s.len(),
    ensures
        spliced(s, cuts, to, pos).len() == s.len() - pos,
    decreases cuts.len(),
{
    if cuts.len() > 0 {
        lemma_drop_range(cuts, to.len(), pos, s.len() as int);
        lemma_spliced_len(s, to, cuts.drop_first(), cuts[0].1);
    }
}

/// What stands at `i` where ranges are replaced by something of their length: what
/// stood there, or the text put in the place of range `k`.
proof fn lemma_spliced_at(
    s: Seq<char>,
    to: Seq<char>,
    cuts: Seq<(int, int)>,
    pos: int,
    i: int,
) -> (k: int)
    requires
        are_ranges_of(cuts, to.len(), pos, s.len() as int),
        0 <= pos <= i < s.len(),
    ensures
        k < 0 ==> !in_ranges(cuts, i) && spliced(s, cuts, to, pos)[i - pos] == s[i],
        k >= 0 ==> k < cuts.len() && cuts[k].0 <= i < cuts[k].1 && spliced(s, cuts, to, pos)[i
            - pos] == to[i - cuts[k].0],
    decreases cuts.len(),
{
    if cuts.len() == 0 {
        -1
    } else {
        let (a, b) = cuts[0];
        let more = cuts.drop_first();
        lemma_drop_range(cuts, to.len(), pos, s.len() as int);
        let r = spliced(s, cuts, to, pos);
        let head = s.subrange(pos, a) + to;
        let tail = spliced(s, more, to, b);
        lemma_spliced_len(s, to, more, b);
        assert(r == head + tail);
        if i < a {
            assert(r[i - pos] == head[i - pos]);
            assert(!in_ranges(cuts, i)) by {
                if in_ranges(cuts, i) {
                    let k = choose|k: int|
                        0 <= k < cuts.len() && (#[trigger] cuts[k]).0 <= i < cuts[k].1;
                    assert(k > 0 ==> cuts[0].1 <= cuts[k].0);
                }
            }
            -1
        } else if i < b {
            assert(r[i - pos] == head[i - pos]);
            0
        } else {
            let l = lemma_spliced_at(s, to, more, b, i);
            assert(r[i - pos] == tail[i - b]);
            if l < 0 {
                assert(!in_ranges(cuts, i)) by {
                    if in_ranges(cuts, i) {
                        let k = choose|k: int|
                            0 <= k < cuts.len() && (#[trigger] cuts[k]).0 <= i < cuts[k].1;
                        assert(more[k - 1] == cuts[k]);
                    }
                }
                -1
            } else {
                assert(more[l] == cuts[l + 1]);
                l + 1
            }
        }
    }
}

/// Quoted names that differ in their first letter do not hide each other's.
proof fn lemma_names_apart(t: Seq<char>, m: Seq<char>, n: Seq<char>, p: int, i: int)
    requires
        is_quoted_name(m),
        is_quoted_name(n),
        m[1] != n[1],
        occurs_at(t, p, m),
        occurs_at(t, i, n),
    ensures
        !(i <= p + 1 < i + n.len()),
{
    if i <= p + 1 < i + n.len() {
        assert(t.subrange(p, p + m.len())[0] == t[p]);
        assert(t.subrange(p, p + m.len())[1] == t[p + 1]);
        assert(t.subrange(i, i + n.len())[0] == t[i]);
        assert(t.subrange(i, i + n.len())[1] == t[i + 1]);
        if p >= i {
            assert(t.subrange(i, i + n.len())[p - i] == t[p]);
        }
        assert(p + 1 - i < n.len());
    }
}

/// Places at which a name stands.
spec fn are_some_places(t: Seq<char>, n: Seq<char>, cuts: Seq<(int, int)>) -> bool {
    &&& are_ranges_of(cuts, n.len(), 0, t.len() as int)
    &&& forall|k: int| 0 <= k < cuts.len() ==> occurs_at(t, (#[trigger] cuts[k]).0, n)
}

proof fn lemma_change(t: Seq<char>, n: Seq<char>, cuts: Seq<(int, int)>, i: int)
    requires
        is_quoted_name(n),
        are_some_places(t, n, cuts),
        0 <= i < t.len(),
    ensures
        ({
            let u = spliced(t, cuts, n.update(1, 'x'), 0);
            u[i] == t[i] || (u[i] == 'x' && occurs_at(t, i - 1, n))
        }),
{
    let to = n.update(1, 'x');
    let k = lemma_spliced_at(t, to, cuts, 0, i);
    if k >= 0 {
        let a = cuts[k].0;
        assert(occurs_at(t, a, n));
        assert(t.subrange(a, a + n.len())[i - a] == t[i]);
    }
}

proof fn lemma_name_changes(t: Seq<char>, n: Seq<char>, cuts: Seq<(int, int)>, i: int)
    requires
        is_quoted_name(n),
        are_some_places(t, n, cuts),
        occurs_at(t, i, n),
        in_ranges(cuts, i),
    ensures
        ({
            let u = spliced(t, cuts, n.update(1, 'x'), 0);
            u[i + 1] == 'x' || occurs_at(t, i - (n.len() - 1), n)
        }),
{
    let to = n.update(1, 'x');
    let k = lemma_spliced_at(t, to, cuts, 0, i);
    let a = cuts[k].0;
    assert(occurs_at(t, a, n));
    assert(t.subrange(i, i + n.len())[0] == t[i]);
    assert(t.subrange(a, a + n.len())[i - a] == t[i]);
    if i == a {
        let l = lemma_spliced_at(t, to, cuts, 0, i + 1);
        if l < 0 {
            assert(cuts[k].0 <= i + 1 < cuts[k].1);
        } else if l < k {
            assert(cuts[l].1 <= cuts[k].0);
        } else if k < l {
            assert(cuts[k].1 <= cuts[l].0);
        }
    } else {
        assert(n[i - a] == '"');
        assert(i - a == n.len() - 1);
    }
}

proof fn lemma_covered(t: Seq<char>, n: Seq<char>, cuts: Seq<(int, int)>, i: int)
    requires
        are_places(t, n, cuts, 0),
        occurs_at(t, i, n),
    ensures
        in_ranges(cuts, i),
{
}

proof fn lemma_some_places(t: Seq<char>, n: Seq<char>, cuts: Seq<(int, int)>)
    requires
        are_places(t, n, cuts, 0),
    ensures
        are_some_places(t, n, cuts),
{
}

proof fn lemma_one_renamed_at(t: Seq<char>, n: Seq<char>, i: int)
    requires
        is_quoted_name(n),
    ensures
        ({
            let u = replaced(t, n, n.update(1, 'x'));
            &&& u.len() == t.len()
            &&& 0 <= i < t.len() ==> u[i] == t[i] || (u[i] == 'x' && occurs_at(t, i - 1, n))
            &&& occurs_at(t, i, n) ==> u[i + 1] == 'x' || occurs_at(t, i - (n.len() - 1), n)
        }),
{
    let to = n.update(1, 'x');
    let cuts = law_every_place_is_replaced(t, n, to);
    lemma_some_places(t, n, cuts);
    lemma_spliced_len(t, to, cuts, 0);
    if 0 <= i < t.len() {
        lemma_change(t, n, cuts, i);
    }
    if occurs_at(t, i, n) {
        lemma_covered(t, n, cuts, i);
        lemma_name_changes(t, n, cuts, i);
    }
}

/// One name renamed.
proof fn lemma_one_renamed(t: Seq<char>, n: Seq<char>)
    requires
        is_quoted_name(n),
    ensures
        ({
            let u = replaced(t, n, n.update(1, 'x'));
            &&& u.len() == t.len()
            &&& forall|i: int|
                0 <= i < t.len() ==> #[trigger] u[i] == t[i] || (u[i] == 'x' && occurs_at(
                    t,
                    i - 1,
                    n,
                ))
            &&& forall|i: int|
                #[trigger] occurs_at(t, i, n) ==> u[i + 1] == 'x' || occurs_at(
                    t,
                    i - (n.len() - 1),
                    n,
                )
        }),
{
    let u = replaced(t, n, n.update(1, 'x'));
    lemma_one_renamed_at(t, n, 0);
    assert forall|i: int| 0 <= i < t.len() implies #[trigger] u[i] == t[i] || (u[i] == 'x'
        && occurs_at(t, i - 1, n)) by {
        lemma_one_renamed_at(t, n, i);
    }
    assert forall|i: int| #[trigger] occurs_at(t, i, n) implies u[i + 1] == 'x' || occurs_at(
        t,
        i - (n.len() - 1),
        n,
    ) by {
        lemma_one_renamed_at(t, n, i);
    }
}

/// A text without the letter that is put in stands in the result only where it stood
/// before.
proof fn lemma_stood_before(t: Seq<char>, u: Seq<char>, p: Seq<char>, i: int)
    requires
        u.len() == t.len(),
        forall|k: int| 0 <= k < t.len() ==> #[trigger] u[k] == t[k] || u[k] == 'x',
        forall|k: int| 0 <= k < p.len() ==> #[trigger] p[k] != 'x',
        occurs_at(u, i, p),
    ensures
        occurs_at(t, i, p),
{
    assert forall|k: int| 0 <= k < p.len() implies t.subrange(i, i + p.len())[k] == p[k] by {
        assert(u.subrange(i, i + p.len())[k] == u[i + k]);
    }
    assert(t.subrange(i, i + p.len()) =~= p);
}

/// Whether each pair turns the first letter of a quoted name into an `x`; the names
/// differ in that letter.
pub open spec fn renames(pairs: Seq<(Seq<char>, Seq<char>)>, names: Seq<Seq<char>>) -> bool {
    &&& pairs.len() == names.len()
    &&& forall|j: int|
        0 <= j < names.len() ==> is_quoted_name(#[trigger] names[j]) && pairs[j] == (
            names[j],
            names[j].update(1, 'x'),
        )
    &&& forall|j: int, k: int|
        0 <= j < k < names.len() ==> (#[trigger] names[j])[1] != (#[trigger] names[k])[1]
}

/// Renaming one name after the other renames all.
#[verifier::rlimit(40)]
proof fn lemma_all_renamed(
    t: Seq<char>,
    pairs: Seq<(Seq<char>, Seq<char>)>,
    names: Seq<Seq<char>>,
    n: nat,
)
    requires
        renames(pairs, names),
        n <= names.len(),
    ensures
        ({
            let u = pairs_replaced(t, pairs, n);
            &&& is_renamed(t, names.take(n as int), u)
            &&& forall|i: int, j: int|
                n <= j < names.len() ==> (#[trigger] occurs_at(u, i, names[j]) <==> occurs_at(
                    t,
                    i,
                    names[j],
                ))
        }),
    decreases n,
{
    let u = pairs_replaced(t, pairs, n);
    if n > 0 {
        let m = (n - 1) as nat;
        let s = pairs_replaced(t, pairs, m);
        let name = names[m as int];
        let before = names.take(m as int);
        let all = names.take(n as int);
        lemma_all_renamed(t, pairs, names, m);
        lemma_one_renamed(s, name);
        assert(u == replaced(s, name, name.update(1, 'x')));
        assert forall|i: int| 0 <= i < t.len() implies #[trigger] u[i] == t[i] || (u[i] == 'x'
            && one_stands_at(t, all, i - 1)) by {
            if u[i] != s[i] {
                assert(occurs_at(s, i - 1, names[m as int]));
                assert(occurs_at(t, i - 1, all[m as int]));
            } else if s[i] != t[i] {
                let j = choose|j: int|
                    0 <= j < before.len() && occurs_at(t, i - 1, #[trigger] before[j]);
                assert(before[j] == all[j]);
            }
        }
        assert forall|i: int, j: int| 0 <= j < all.len() && #[trigger] occurs_at(
            t,
            i,
            all[j],
        ) implies u[i + 1] == 'x' || occurs_at(t, i - (all[j].len() - 1), all[j]) by {
            if j < m {
                assert(before[j] == all[j]);
                assert(occurs_at(t, i, before[j]));
                if s[i + 1] == 'x' {
                    assert(u[i + 1] == s[i + 1] || u[i + 1] == 'x');
                }
            } else {
                assert(occurs_at(s, i, names[m as int]));
                if occurs_at(s, i - (name.len() - 1), name) {
                    assert(occurs_at(s, i - (name.len() - 1), names[m as int]));
                }
            }
        }
        assert forall|i: int, j: int| n <= j < names.len() implies (#[trigger] occurs_at(
            u,
            i,
            names[j],
        ) <==> occurs_at(t, i, names[j])) by {
            let p = names[j];
            if occurs_at(u, i, p) {
                lemma_stood_before(s, u, p, i);
                assert(occurs_at(s, i, names[j]));
            }
            if occurs_at(t, i, p) {
                assert(occurs_at(s, i, names[j]));
                assert forall|k: int| 0 <= k < p.len() implies u.subrange(i, i + p.len())[k]
                    == p[k] by {
                    assert(s.subrange(i, i + p.len())[k] == s[i + k]);
                    if u[i + k] != s[i + k] {
                        assert(occurs_at(s, i + k - 1, name));
                        lemma_names_apart(s, name, p, i + k - 1, i);
                    }
                }
                assert(u.subrange(i, i + p.len()) =~= p);
            }
        }
    }
}

/// Of a name that does not share a quote with itself nothing is left.
pub proof fn law_renamed_names_are_gone(
    t: Seq<char>,
    names: Seq<Seq<char>>,
    u: Seq<char>,
    j: int,
)
    requires
        is_renamed(t, names, u),
        0 <= j < names.len(),
        is_quoted_name(names[j]),
        !contains_text(t, names[j] + names[j].drop_first()),
    ensures
        !contains_text(u, names[j]),
{
    let n = names[j];
    if contains_text(u, n) {
        let i = choose|i: int| occurs_at(u, i, n);
        assert forall|k: int| 0 <= k < t.len() implies #[trigger] u[k] == t[k] || u[k] == 'x' by {}
        lemma_stood_before(t, u, n, i);
        assert(u.subrange(i, i + n.len())[1] == u[i + 1]);
        assert(occurs_at(t, i, names[j]));
        let a = i - (n.len() - 1);
        assert(occurs_at(t, a, n));
        let both = n + n.drop_first();
        assert(t.subrange(a, a + both.len()) =~= both) by {
            assert forall|k: int| 0 <= k < both.len() implies t.subrange(a, a + both.len())[k]
                == both[k] by {
                if k < n.len() {
                    assert(t.subrange(a, a + n.len())[k] == t[a + k]);
                } else {
                    assert(t.subrange(i, i + n.len())[a + k - i] == t[a + k]);
                }
            }
        }
        assert(occurs_at(t, a, both));
    }
}

/// A text in which only letters turned into an `x` begins with no byte order mark, if
/// it began with none.
proof fn lemma_read_back(bytes: Seq<u8>, names: Seq<Seq<char>>, u: Seq<char>)
    requires
        utf16_file_text(bytes) is Ok,
        is_renamed(utf16_file_text(bytes)->Ok_0, names, u),
    ensures
        utf16_file_text(utf16_file(u)) == Ok::<Seq<char>, TransformError>(u),
{
    lemma_without_marks(utf16_text(byte_units(bytes))->0);
    if u.len() > 0 {
        assert(u[0] == utf16_file_text(bytes)->Ok_0[0] || u[0] == 'x');
    }
    assert(without_marks(u) == u);
    law_utf16_file_reads_back(u);
}

/// The light patch renames the four settings of lights, in quotes, so that the game
/// does not find them, and changes nothing else.
pub proof fn law_light_patch_renames_the_lights(path: Seq<char>, bytes: Seq<u8>, zoom: Seq<char>)
    requires
        utf16_file_text(bytes) is Ok,
    ensures
        ({
            let t = utf16_file_text(bytes)->Ok_0;
            let out = transformed(PatchId::Light, path, bytes, zoom);
            let u = utf16_file_text(out->Ok_0);
            let names = seq![
                "\"directional_light\""@,
                "\"player_light\""@,
                "\"environment_mapping\""@,
                "\"global_illumination\""@,
            ];
            &&& out is Ok
            &&& u is Ok
            &&& is_renamed(t, names, u->Ok_0)
            &&& forall|j: int|
                0 <= j < 4 && !contains_text(t, #[trigger] names[j] + names[j].drop_first())
                    ==> !contains_text(u->Ok_0, names[j])
        }),
{
    let t = utf16_file_text(bytes)->Ok_0;
    let names = seq![
        "\"directional_light\""@,
        "\"player_light\""@,
        "\"environment_mapping\""@,
        "\"global_illumination\""@,
    ];
    assert(renames(light_pairs(), names)) by {
        lemma_light_names();
    }
    let u = pairs_replaced(t, light_pairs(), 4);
    lemma_all_renamed(t, light_pairs(), names, 4);
    assert(names.take(4) =~= names);
    lemma_read_back(bytes, names, u);
    assert forall|j: int|
        0 <= j < 4 && !contains_text(t, #[trigger] names[j] + names[j].drop_first()) implies
        !contains_text(u, names[j]) by {
        assert(is_quoted_name(names[j]));
        law_renamed_names_are_gone(t, names, u, j);
    }
}

#[verifier::rlimit(60)]
proof fn lemma_light_names()
    ensures
        renames(
            light_pairs(),
            seq![
                "\"directional_light\""@,
                "\"player_light\""@,
                "\"environment_mapping\""@,
                "\"global_illumination\""@,
            ],
        ),
{
    reveal_strlit("\"directional_light\"");
    reveal_strlit("\"xirectional_light\"");
    reveal_strlit("\"player_light\"");
    reveal_strlit("\"xlayer_light\"");
    reveal_strlit("\"environment_mapping\"");
    reveal_strlit("\"xnvironment_mapping\"");
    reveal_strlit("\"global_illumination\"");
    reveal_strlit("\"xlobal_illumination\"");
    assert("\"xirectional_light\""@ =~= "\"directional_light\""@.update(1, 'x'));
    assert("\"xlayer_light\""@ =~= "\"player_light\""@.update(1, 'x'));
    assert("\"xnvironment_mapping\""@ =~= "\"environment_mapping\""@.update(1, 'x'));
    assert("\"xlobal_illumination\""@ =~= "\"global_illumination\""@.update(1, 'x'));
    assert(is_quoted_name("\"directional_light\""@));
    assert(is_quoted_name("\"player_light\""@));
    assert(is_quoted_name("\"environment_mapping\""@));
    assert(is_quoted_name("\"global_illumination\""@));
}

/// The fog patch renames the setting of the fog, in quotes, and changes nothing else.
pub proof fn law_fog_patch_renames_the_fog(path: Seq<char>, bytes: Seq<u8>, zoom: Seq<char>)
    requires
        utf16_file_text(bytes) is Ok,
    ensures
        ({
            let t = utf16_file_text(bytes)->Ok_0;
            let out = transformed(PatchId::Fog, path, bytes, zoom);
            let u = utf16_file_text(out->Ok_0);
            &&& out is Ok
            &&& u is Ok
            &&& is_renamed(t, seq!["\"fog\""@], u->Ok_0)
            &&& !contains_text(t, "\"fog\"fog\""@) ==> !contains_text(u->Ok_0, "\"fog\""@)
        }),
{
    let t = utf16_file_text(bytes)->Ok_0;
    let names = seq!["\"fog\""@];
    reveal_strlit("\"fog\"");
    reveal_strlit("\"xog\"");
    reveal_strlit("\"fog\"fog\"");
    assert("\"xog\""@ =~= "\"fog\""@.update(1, 'x'));
    assert(is_quoted_name("\"fog\""@));
    let u = pairs_replaced(t, fog_pairs(), 1);
    lemma_all_renamed(t, fog_pairs(), names, 1);
    assert(names.take(1) =~= names);
    lemma_read_back(bytes, names, u);
    assert("\"fog\""@ + "\"fog\""@.drop_first() =~= "\"fog\"fog\""@);
    if !contains_text(t, "\"fog\"fog\""@) {
        law_renamed_names_are_gone(t, names, u, 0);
    }
}

/// The patch of environment particles renames the five settings, in quotes, before
/// rain and clouds are set to zero.
pub proof fn law_environment_settings_are_renamed(t: Seq<char>) -> (u: Seq<char>)
    ensures
        environment_text(t) == clouds_gone(rain_stopped(u)),
        u == pairs_replaced(t, environment_pairs(), environment_pairs().len()),
        is_renamed(
            t,
            seq![
                "\"area\""@,
                "\"fog\""@,
                "\"screenspace_fog\""@,
                "\"effect_spawner\""@,
                "\"post_processing\""@,
            ],
            u,
        ),
{
    let names = seq![
        "\"area\""@,
        "\"fog\""@,
        "\"screenspace_fog\""@,
        "\"effect_spawner\""@,
        "\"post_processing\""@,
    ];
    lemma_environment_names();
    lemma_all_renamed(t, environment_pairs(), names, 5);
    assert(names.take(5) =~= names);
    pairs_replaced(t, environment_pairs(), 5)
}

/// What the patch of environment particles makes of a file: the five settings renamed,
/// and then zero in the place of the values of the rain's and the clouds' intensity.
pub proof fn law_environment_patch_renames_and_sets_zero(
    path: Seq<char>,
    bytes: Seq<u8>,
    zoom: Seq<char>,
) -> (u: Seq<char>)
    requires
        utf16_file_text(bytes) is Ok,
    ensures
        is_renamed(
            utf16_file_text(bytes)->Ok_0,
            seq![
                "\"area\""@,
                "\"fog\""@,
                "\"screenspace_fog\""@,
                "\"effect_spawner\""@,
                "\"post_processing\""@,
            ],
            u,
        ),
        ({
            let out = transformed(PatchId::EnvParticles, path, bytes, zoom);
            let dry = regex_replaced(
                "(\"rain_intensity\":\\s*)([^,\\r\\n}]+)(,?)"@,
                u,
                "${1}0.0${3}"@,
            );
            let clear = regex_replaced(
                "(\"clouds_intensity\":\\s*)([^,\\r\\n}]+)(,?)"@,
                dry,
                "${1}0.0${3}"@,
            );
            &&& out is Ok
            &&& utf16_file_text(out->Ok_0) == Ok::<Seq<char>, TransformError>(without_marks(clear))
        }),
{
    let t = utf16_file_text(bytes)->Ok_0;
    let u = law_environment_settings_are_renamed(t);
    law_utf16_file_reads_back(environment_text(t));
    u
}

#[verifier::rlimit(60)]
proof fn lemma_environment_names()
    ensures
        renames(
            environment_pairs(),
            seq![
                "\"area\""@,
                "\"fog\""@,
                "\"screenspace_fog\""@,
                "\"effect_spawner\""@,
                "\"post_processing\""@,
            ],
        ),
{
    reveal_strlit("\"area\"");
    reveal_strlit("\"xrea\"");
    reveal_strlit("\"fog\"");
    reveal_strlit("\"xog\"");
    reveal_strlit("\"screenspace_fog\"");
    reveal_strlit("\"xcreenspace_fog\"");
    reveal_strlit("\"effect_spawner\"");
    reveal_strlit("\"xffect_spawner\"");
    reveal_strlit("\"post_processing\"");
    reveal_strlit("\"xost_processing\"");
    assert("\"xrea\""@ =~= "\"area\""@.update(1, 'x'));
    assert("\"xog\""@ =~= "\"fog\""@.update(1, 'x'));
    assert("\"xcreenspace_fog\""@ =~= "\"screenspace_fog\""@.update(1, 'x'));
    assert("\"xffect_spawner\""@ =~= "\"effect_spawner\""@.update(1, 'x'));
    assert("\"xost_processing\""@ =~= "\"post_processing\""@.update(1, 'x'));
    assert(is_quoted_name("\"area\""@));
    assert(is_quoted_name("\"fog\""@));
    assert(is_quoted_name("\"screenspace_fog\""@));
    assert(is_quoted_name("\"effect_spawner\""@));
    assert(is_quoted_name("\"post_processing\""@));
}

/// What turns shadows on cannot overlap what turns them off.
#[verifier::rlimit(60)]
proof fn lemma_shadows_clash(d: int)
    requires
        -("\"shadows_enabled\": true"@.len()) < d < "\"shadows_enabled\": false"@.len(),
    ensures
        clash("\"shadows_enabled\": true"@, "\"shadows_enabled\": false"@, d),
{
    let p = "\"shadows_enabled\": true"@;
    let q = "\"shadows_enabled\": false"@;
    reveal_strlit("\"shadows_enabled\": true");
    reveal_strlit("\"shadows_enabled\": false");
    assert(p.len() == 23 && q.len() == 24);
    if d == 0 {
        assert(p[19] != q[19 + d]);
    } else if d == 16 {
        assert(p[1] != q[1 + d]);
    } else if d > 0 {
        assert(p[0] != q[0 + d]);
    } else if d == -16 {
        assert(p[17] != q[17 + d]);
    } else {
        assert(p[-d] != q[-d + d]);
    }
}

/// After the shadow patch nothing turns shadows on any more, and each place that did
/// turns them off.
pub proof fn law_shadow_patch_turns_shadows_off(path: Seq<char>, bytes: Seq<u8>, zoom: Seq<char>) -> (cuts: Seq<
    (int, int),
>)
    requires
        utf16_file_text(bytes) is Ok,
    ensures
        ({
            let t = utf16_file_text(bytes)->Ok_0;
            let out = transformed(PatchId::Shadow, path, bytes, zoom);
            let u = utf16_file_text(out->Ok_0);
            &&& out is Ok
            &&& u is Ok
            &&& !contains_text(u->Ok_0, "\"shadows_enabled\": true"@)
            &&& are_places(t, "\"shadows_enabled\": true"@, cuts, 0)
            &&& u->Ok_0 == spliced(t, cuts, "\"shadows_enabled\": false"@, 0)
        }),
{
    let t = utf16_file_text(bytes)->Ok_0;
    let p = "\"shadows_enabled\": true"@;
    let q = "\"shadows_enabled\": false"@;
    reveal_strlit("\"shadows_enabled\": true");
    reveal_strlit("\"shadows_enabled\": false");
    assert forall|d: int| -p.len() < d < q.len() implies #[trigger] clash(p, q, d) by {
        lemma_shadows_clash(d);
    }
    let u = pairs_replaced(t, shadow_pairs(), 1);
    assert(u == replaced(pairs_replaced(t, shadow_pairs(), 0), p, q));
    law_nothing_is_left_of_what_clashes(t, p, q);
    let cuts = law_every_place_is_replaced(t, p, q);
    lemma_without_marks(utf16_text(byte_units(bytes))->0);
    if u.len() > 0 {
        if cuts.len() > 0 && cuts[0].0 == 0 {
            assert(u[0] == q[0]);
        } else {
            assert(u[0] == t[0]);
        }
    }
    assert(without_marks(u) == u);
    law_utf16_file_reads_back(u);
    cuts
}

} // verus!
