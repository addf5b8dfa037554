//! Names of files, parts of paths, and the digits in them.

use crate::order::text_before;
use crate::pick_laws::{and_last, lemma_picks_more, lemma_picks_none, picks};
use crate::paths::{path_parts, telling_parts};
use crate::steam_laws::{lemma_split_front, lemma_split_none};
use crate::store::{cache_file_name_of, is_legacy_name};
use crate::text::{ends_with, hex_digit, hex_digits, split_on, starts_with};
use crate::tools::{ending_of, last_dot};
use crate::transforms::{
    clouds_gone, law_utf16_file_reads_back, rain_stopped, regex_replaced, transformed,
    utf16_file_text, without_marks, TransformError,
};
use crate::patches::PatchId;
use vstd::prelude::*;

verus! {

/// Sixteen hexadecimal digits in lower case.
pub open spec fn is_tag(s: Seq<char>) -> bool {
    s.len() == 16 && forall|i: int|
        0 <= i < s.len() ==> '0' <= #[trigger] s[i] <= '9' || 'a' <= s[i] <= 'f'
}

proof fn lemma_prefix_suffix(prefix: Seq<char>, tag: Seq<char>, suffix: Seq<char>)
    ensures
        ({
            let name = prefix + tag + suffix;
            &&& starts_with(name, prefix)
            &&& ends_with(name, suffix)
            &&& name.subrange(prefix.len() as int, name.len() - suffix.len()) == tag
        }),
{
    let name = prefix + tag + suffix;
    assert(name.subrange(0, prefix.len() as int) =~= prefix);
    assert(name.subrange(name.len() - suffix.len(), name.len() as int) =~= suffix);
    assert(name.subrange(prefix.len() as int, name.len() - suffix.len()) =~= tag);
}

/// The caches of earlier versions are known by their names.
pub proof fn law_earlier_caches_are_known(tag: Seq<char>)
    requires
        is_tag(tag),
    ensures
        is_legacy_name("index-cache.bin"@),
        is_legacy_name("index-cache-"@ + tag + ".bin"@),
        is_legacy_name("index-cache-v2-"@ + tag + ".bin"@),
{
    reveal_strlit(".bin");
    lemma_prefix_suffix("index-cache-"@, tag, ".bin"@);
    lemma_prefix_suffix("index-cache-v2-"@, tag, ".bin"@);
}

/// Only files with such a name are taken for the cache of an earlier version.
pub proof fn law_no_other_file_is_an_earlier_cache(name: Seq<char>) -> (tag: Seq<char>)
    requires
        is_legacy_name(name),
    ensures
        name == "index-cache.bin"@ || (is_tag(tag) && (name == "index-cache-"@ + tag + ".bin"@
            || name == "index-cache-v2-"@ + tag + ".bin"@)),
{
    reveal_strlit(".bin");
    reveal_strlit("index-cache-");
    reveal_strlit("index-cache-v2-");
    let a = "index-cache-"@;
    let b = "index-cache-v2-"@;
    if crate::store::is_tagged(name, a) {
        let tag = name.subrange(a.len() as int, name.len() - 4);
        lemma_put_together(name, a, tag);
        tag
    } else if crate::store::is_tagged(name, b) {
        let tag = name.subrange(b.len() as int, name.len() - 4);
        lemma_put_together(name, b, tag);
        tag
    } else {
        Seq::empty()
    }
}

proof fn lemma_put_together(name: Seq<char>, prefix: Seq<char>, tag: Seq<char>)
    requires
        starts_with(name, prefix),
        ends_with(name, ".bin"@),
        name.len() >= prefix.len() + 4,
        ".bin"@.len() == 4,
        tag == name.subrange(prefix.len() as int, name.len() - 4),
    ensures
        name == prefix + tag + ".bin"@,
{
    assert(name.subrange(0, prefix.len() as int) == prefix);
    assert(name.subrange(name.len() - 4, name.len() as int) == ".bin"@);
    assert(name =~= name.subrange(0, prefix.len() as int) + tag + name.subrange(
        name.len() - 4,
        name.len() as int,
    ));
}

/// What hexadecimal digits say.
pub open spec fn hex_value(s: Seq<char>) -> int
    decreases s.len(),
{
    if s.len() == 0 {
        0
    } else {
        let c = s.last() as u32 as int;
        16 * hex_value(s.drop_last()) + if c <= 57 {
            c - 48
        } else {
            c - 87
        }
    }
}

proof fn lemma_hex_digit(d: nat)
    requires
        d < 16,
    ensures
        ({
            let c = hex_digit(d);
            &&& '0' <= c <= '9' || 'a' <= c <= 'f'
            &&& d < 10 ==> c as u32 == 48 + d && c as u32 <= 57
            &&& d >= 10 ==> c as u32 == 87 + d && c as u32 > 57
        }),
{
}

/// A number is written in as many hexadecimal digits as are asked for, which say it as
/// far as they reach.
pub proof fn law_hexadecimal_digits_say_the_number(v: nat, n: nat)
    ensures
        hex_digits(v, n).len() == n,
        forall|i: int|
            0 <= i < n ==> '0' <= #[trigger] hex_digits(v, n)[i] <= '9' || 'a' <= hex_digits(
                v,
                n,
            )[i] <= 'f',
        v < vstd::arithmetic::power::pow(16, n) ==> hex_value(hex_digits(v, n)) == v,
    decreases n,
{
    vstd::arithmetic::power::lemma_pow0(16);
    if n > 0 {
        let m = (n - 1) as nat;
        law_hexadecimal_digits_say_the_number(v / 16, m);
        lemma_hex_digit(v % 16);
        assert(hex_digits(v, n).drop_last() =~= hex_digits(v / 16, m));
        reveal(vstd::arithmetic::power::pow);
        assert(vstd::arithmetic::power::pow(16, n) == 16 * vstd::arithmetic::power::pow(16, m));
    }
}

/// The cache that is written is not taken for one of an earlier version.
pub proof fn law_own_cache_is_no_earlier_one(source: Seq<char>)
    ensures
        !is_legacy_name(cache_file_name_of(source)),
{
    let hash = crate::hashing::fnv1a_of(vstd::utf8::encode_utf8(source)) as nat;
    let digits = hex_digits(hash, 16);
    let name = cache_file_name_of(source);
    law_hexadecimal_digits_say_the_number(hash, 16);
    reveal_strlit(".bin");
    reveal_strlit("index-cache.bin");
    reveal_strlit("index-cache-");
    reveal_strlit("index-cache-v2-");
    reveal_strlit("index-cache-v3-");
    assert(name.len() == 35);
    if is_legacy_name(name) {
        let tag = law_no_other_file_is_an_earlier_cache(name);
        if name == "index-cache-v2-"@ + tag + ".bin"@ {
            assert(name[13] == '3');
            assert(("index-cache-v2-"@ + tag + ".bin"@)[13] == '2');
        }
    }
}

/// The ending of a path is what follows its last dot, with the dot.
pub proof fn law_ending_begins_with_the_last_dot(front: Seq<char>, end: Seq<char>)
    requires
        !end.contains('.'),
    ensures
        ending_of(front + seq!['.'] + end) == seq!['.'] + end,
        ending_of(end) == Seq::<char>::empty(),
{
    let path = front + seq!['.'] + end;
    lemma_last_dot(path, front.len() as int, path.len());
    assert(path.subrange(front.len() as int, path.len() as int) =~= seq!['.'] + end);
    lemma_no_dot(end, end.len());
}

proof fn lemma_last_dot(path: Seq<char>, i: int, n: nat)
    requires
        0 <= i < n <= path.len(),
        path[i] == '.',
        !path.subrange(i + 1, path.len() as int).contains('.'),
    ensures
        last_dot(path, n) == Some(i),
    decreases n,
{
    if i < n - 1 {
        let end = path.subrange(i + 1, path.len() as int);
        assert(end[n - 1 - (i + 1)] == path[n - 1]);
        assert(path[n - 1] != '.');
        lemma_last_dot(path, i, (n - 1) as nat);
    }
}

proof fn lemma_no_dot(path: Seq<char>, n: nat)
    requires
        n <= path.len(),
        !path.contains('.'),
    ensures
        last_dot(path, n) is None,
    decreases n,
{
    if n > 0 {
        assert(path.contains(path[n - 1]));
        lemma_no_dot(path, (n - 1) as nat);
    }
}

/// The parts of a path are what stands between its slashes, in order, without empty
/// ones and without dots behind the first place.
pub proof fn law_parts_that_say_something(parts: Seq<Seq<char>>, n: nat) -> (at: Seq<int>)
    requires
        n <= parts.len(),
    ensures
        picks(
            at,
            Seq::new(n, |i: int| parts[i].len() > 0 && !(i > 0 && parts[i] == seq!['.'])),
        ),
        telling_parts(parts, n).len() == at.len(),
        forall|k: int| 0 <= k < at.len() ==> #[trigger] telling_parts(parts, n)[k] == parts[at[k]],
    decreases n,
{
    let want = Seq::new(n, |i: int| parts[i].len() > 0 && !(i > 0 && parts[i] == seq!['.']));
    if n == 0 {
        lemma_picks_none(want);
        Seq::empty()
    } else {
        let l = (n - 1) as nat;
        let at = law_parts_that_say_something(parts, l);
        let before = telling_parts(parts, l);
        let less = Seq::new(l, |i: int| parts[i].len() > 0 && !(i > 0 && parts[i] == seq!['.']));
        assert(want.drop_last() =~= less);
        lemma_picks_more(at, less, want);
        let all = and_last(at, n - 1, want.last());
        let r = telling_parts(parts, n);
        assert forall|k: int| 0 <= k < all.len() implies #[trigger] r[k] == parts[all[k]] by {
            if k < at.len() {
                assert(r[k] == before[k]);
                assert(all[k] == at[k]);
            }
        }
        all
    }
}

/// What stands between the slashes of a path is found in order.
pub proof fn law_slashes_part_a_path(first: Seq<char>, rest: Seq<char>)
    requires
        !first.contains('/'),
    ensures
        split_on(first + seq!['/'] + rest, '/') == seq![first] + split_on(rest, '/'),
        split_on(first, '/') == seq![first],
        path_parts(first + seq!['/'] + rest) == telling_parts(
            seq![first] + split_on(rest, '/'),
            1 + split_on(rest, '/').len(),
        ),
{
    lemma_split_front(first, '/', rest);
    lemma_split_none(first, '/');
}

/// The rain patch puts zero in the place of the values of the rain's intensity.
pub proof fn law_rain_patch_sets_zero(path: Seq<char>, bytes: Seq<u8>, zoom: Seq<char>)
    requires
        utf16_file_text(bytes) is Ok,
    ensures
        ({
            let out = transformed(PatchId::Rain, path, bytes, zoom);
            &&& out is Ok
            &&& utf16_file_text(out->Ok_0) == Ok::<Seq<char>, TransformError>(
                without_marks(
                    regex_replaced(
                        "(\"rain_intensity\":\\s*)([^,\\r\\n}]+)(,?)"@,
                        utf16_file_text(bytes)->Ok_0,
                        "${1}0.0${3}"@,
                    ),
                ),
            )
        }),
{
    law_utf16_file_reads_back(rain_stopped(utf16_file_text(bytes)->Ok_0));
}

/// The cloud patch puts zero in the place of the values of the clouds' intensity.
pub proof fn law_cloud_patch_sets_zero(path: Seq<char>, bytes: Seq<u8>, zoom: Seq<char>)
    requires
        utf16_file_text(bytes) is Ok,
    ensures
        ({
            let out = transformed(PatchId::Clouds, path, bytes, zoom);
            &&& out is Ok
            &&& utf16_file_text(out->Ok_0) == Ok::<Seq<char>, TransformError>(
                without_marks(
                    regex_replaced(
                        "(\"clouds_intensity\":\\s*)([^,\\r\\n}]+)(,?)"@,
                        utf16_file_text(bytes)->Ok_0,
                        "${1}0.0${3}"@,
                    ),
                ),
            )
        }),
{
    law_utf16_file_reads_back(clouds_gone(utf16_file_text(bytes)->Ok_0));
}

/// A file of UTF-16 that ends in the middle of a unit is refused by every patch that
/// reads it as text.
pub proof fn law_half_a_unit_is_refused(
    patch: PatchId,
    path: Seq<char>,
    bytes: Seq<u8>,
    zoom: Seq<char>,
)
    requires
        bytes.len() % 2 == 1,
        patch == PatchId::Camera || patch == PatchId::AtlasFog || patch == PatchId::Fog || patch
            == PatchId::Rain || patch == PatchId::Clouds || patch == PatchId::EnvParticles || patch
            == PatchId::Shadow || patch == PatchId::Light || patch == PatchId::Delirium,
    ensures
        transformed(patch, path, bytes, zoom) == Err::<Seq<u8>, TransformError>(
            TransformError::OddLength,
        ),
{
}

/// Texts are ordered by the first place at which they differ: there the smaller
/// character comes first, and the end of a text before any character.
pub proof fn law_first_difference_orders_texts(a: Seq<char>, b: Seq<char>, i: int)
    requires
        0 <= i <= a.len(),
        i <= b.len(),
        a.take(i) == b.take(i),
        i < a.len() && i < b.len() ==> a[i] != b[i],
    ensures
        text_before(a, b) == (i < b.len() && (i == a.len() || a[i] < b[i])),
    decreases i,
{
    if i > 0 {
        let x = a.subrange(1, a.len() as int);
        let y = b.subrange(1, b.len() as int);
        assert(a[0] == a.take(i)[0] && b[0] == b.take(i)[0]);
        assert(x.take(i - 1) =~= a.take(i).subrange(1, i));
        assert(y.take(i - 1) =~= b.take(i).subrange(1, i));
        law_first_difference_orders_texts(x, y, i - 1);
    }
}

} // verus!
