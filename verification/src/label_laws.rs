//! How patches, counts and keys are named to the user.

use crate::choice_laws::law_decimal_digits_say_the_number;
use crate::labels::{counted, key_list, shown_name, unicode_uppercase};
use crate::lines::joined_by;
use crate::splices::{are_places, law_every_place_is_replaced, spliced};
use crate::steam_laws::{lemma_replaced_at, lemma_replaced_behind};
use crate::text::{decimal, lemma_find_from, occurs_at, replaced};
use vstd::prelude::*;

verus! {

/// A name with spaces in the place of its hyphens.
pub open spec fn in_words(name: Seq<char>) -> Seq<char> {
    name.map_values(
        |c: char|
            if c == '-' {
                ' '
            } else {
                c
            },
    )
}

proof fn lemma_in_words(name: Seq<char>)
    ensures
        replaced(name, seq!['-'], seq![' ']) == in_words(name),
    decreases name.len(),
{
    let from = seq!['-'];
    let to = seq![' '];
    if name.len() == 0 {
        lemma_find_from(name, from, 0);
        assert(replaced(name, from, to) =~= in_words(name));
    } else {
        let rest = name.drop_first();
        lemma_in_words(rest);
        assert(name =~= seq![name[0]] + rest);
        if name[0] == '-' {
            assert(name.subrange(0, 1) =~= from);
            assert(occurs_at(name, 0, from));
            lemma_replaced_at(name, from, to, 0);
            assert(name.subrange(1, name.len() as int) =~= rest);
            assert(name.subrange(0, 0) + to + in_words(rest) =~= in_words(name));
        } else {
            lemma_replaced_behind(name[0], rest, from, to);
            assert(seq![name[0]] + in_words(rest) =~= in_words(name));
        }
    }
}

/// The name of a patch is shown in words, with a capital at its front, and with `MTX` in
/// capitals wherever it stands in it.
pub proof fn law_names_are_shown_in_words(name: Seq<char>) -> (steps: (
    Seq<(int, int)>,
    Seq<char>,
    Seq<(int, int)>,
))
    requires
        name.len() > 0,
    ensures
        ({
            let words = in_words(name);
            let big = unicode_uppercase(words[0]) + words.subrange(1, words.len() as int);
            &&& are_places(big, seq!['M', 't', 'x'], steps.0, 0)
            &&& steps.1 == spliced(big, steps.0, seq!['M', 'T', 'X'], 0)
            &&& are_places(steps.1, seq!['m', 't', 'x'], steps.2, 0)
            &&& shown_name(name) == spliced(steps.1, steps.2, seq!['M', 'T', 'X'], 0)
        }),
{
    lemma_in_words(name);
    let words = in_words(name);
    let big = unicode_uppercase(words[0]) + words.subrange(1, words.len() as int);
    let first = law_every_place_is_replaced(big, seq!['M', 't', 'x'], seq!['M', 'T', 'X']);
    let middle = replaced(big, seq!['M', 't', 'x'], seq!['M', 'T', 'X']);
    let second = law_every_place_is_replaced(middle, seq!['m', 't', 'x'], seq!['M', 'T', 'X']);
    (first, middle, second)
}

/// A count stands in front of its noun, which is plural but for one.
pub proof fn law_counts_have_their_nouns(count: nat, noun: Seq<char>) -> (digits: Seq<char>)
    ensures
        crate::choice_laws::digits_value(digits) == count,
        count == 1 ==> counted(count, noun) == digits + seq![' '] + noun,
        count != 1 ==> counted(count, noun) == digits + seq![' '] + noun + seq!['s'],
{
    law_decimal_digits_say_the_number(count);
    reveal_strlit(" ");
    reveal_strlit("");
    reveal_strlit("s");
    let digits = decimal(count);
    assert(" "@ =~= seq![' ']);
    assert("s"@ =~= seq!['s']);
    assert(""@ =~= Seq::<char>::empty());
    assert(digits + " "@ + noun + ""@ =~= digits + seq![' '] + noun);
    digits
}

/// Of the keys of a row twelve are listed at most, one a line, and how many more there
/// are.
pub proof fn law_twelve_keys_are_listed(keys: Seq<Seq<char>>)
    ensures
        keys.len() <= 12 ==> key_list(keys) == joined_by(keys, seq!['\n'], keys.len()),
        keys.len() > 12 ==> key_list(keys) == joined_by(keys, seq!['\n'], 12) + "\n… "@ + decimal(
            (keys.len() - 12) as nat,
        ) + " more"@,
{
    reveal_strlit("\n");
    assert("\n"@ =~= seq!['\n']);
}

} // verus!
