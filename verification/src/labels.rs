//! Texts that the window shows.

use crate::app::PatchState;
use crate::restore::RestoreReport;
use crate::lines::joined_by;
use crate::text::{
    char_range, chars_of, decimal, decimal_chars, push_chars, replace_chars, replaced, string_of,
    texts,
};
use vstd::prelude::*;

verus! {

fn append_number(out: &mut String, n: u64)
    ensures
        final(out)@ == old(out)@ + decimal(n as nat),
{
    let digits = decimal_chars(n);
    let text = string_of(digits.as_slice());
    out.append(text.as_str());
}

/// A count with its noun: `1 skill`, `2 skills`.
pub open spec fn counted(count: nat, noun: Seq<char>) -> Seq<char> {
    decimal(count) + " "@ + noun + if count == 1 {
        ""@
    } else {
        "s"@
    }
}

/// A count with its noun: `1 skill`, `2 skills`.
pub fn count_label(count: usize, noun: &str) -> (r: String)
    ensures
        r@ == counted(count as nat, noun@),
{
    let mut r = String::new();
    append_number(&mut r, count as u64);
    r.append(" ");
    r.append(noun);
    if count != 1 {
        r.append("s");
    }
    proof {
        reveal_strlit("");
        assert(r@ =~= counted(count as nat, noun@));
    }
    r
}

/// What stands behind the name of something that has none in the game.
pub fn monster_context_label(context: &str) -> (r: String)
    ensures
        r@ == "· "@ + context@,
{
    let mut r = "· ".to_owned();
    r.append(context);
    r
}

/// How many keys a hint lists.
pub const MAX_HOVER_KEYS: usize = 12;

/// The keys of a row, one a line; of many keys the first ones, and how many more
/// there are.
pub open spec fn key_list(keys: Seq<Seq<char>>) -> Seq<char> {
    if keys.len() <= MAX_HOVER_KEYS {
        joined_by(keys, "\n"@, keys.len())
    } else {
        joined_by(keys, "\n"@, MAX_HOVER_KEYS as nat) + "\n… "@ + decimal(
            (keys.len() - MAX_HOVER_KEYS) as nat,
        ) + " more"@
    }
}

/// The keys of a row, one a line, without those beyond a dozen.
pub fn hover_key_list(keys: &Vec<String>) -> (r: String)
    ensures
        r@ == key_list(texts(keys@)),
{
    let ghost all = texts(keys@);
    let n: usize = keys.len();
    let listed: usize = if n <= MAX_HOVER_KEYS {
        n
    } else {
        MAX_HOVER_KEYS
    };
    let mut r = String::new();
    let mut i: usize = 0;
    assert(r@ =~= joined_by(all, "\n"@, 0));
    while i < listed
        invariant
            i <= listed <= n == keys@.len(),
            all == texts(keys@),
            r@ == joined_by(all, "\n"@, i as nat),
        decreases listed - i,
    {
        assert(all[i as int] == keys@[i as int]@);
        if i > 0 {
            r.append("\n");
        }
        r.append(keys[i].as_str());
        i = i + 1;
        assert(r@ =~= joined_by(all, "\n"@, i as nat));
    }
    if n > MAX_HOVER_KEYS {
        r.append("\n… ");
        append_number(&mut r, (n - MAX_HOVER_KEYS) as u64);
        r.append(" more");
    }
    r
}

/// What `char::to_uppercase` makes of a character.
pub uninterp spec fn unicode_uppercase(c: char) -> Seq<char>;

/// `char::to_uppercase`: the upper case of a character, after Unicode. How
/// Unicode maps each character is left to the standard library.
#[verifier::external_body]
fn to_uppercase(c: char) -> (r: String)
    ensures
        r@ == unicode_uppercase(c),
{
    c.to_uppercase().to_string()
}

/// `spaced` with `first` in the place of its first character, and with `MTX` in
/// capitals.
pub open spec fn shown_with(spaced: Seq<char>, first: Seq<char>) -> Seq<char> {
    let big = if spaced.len() == 0 {
        spaced
    } else {
        first + spaced.subrange(1, spaced.len() as int)
    };
    replaced(
        replaced(big, seq!['M', 't', 'x'], seq!['M', 'T', 'X']),
        seq!['m', 't', 'x'],
        seq!['M', 'T', 'X'],
    )
}

/// The name of a patch or preset as it is shown: `atlas-fog` is `Atlas fog`,
/// `mtx-soft` is `MTX soft`.
pub open spec fn shown_name(name: Seq<char>) -> Seq<char> {
    let spaced = replaced(name, seq!['-'], seq![' ']);
    shown_with(spaced, unicode_uppercase(spaced[0]))
}

/// The name of a patch or preset as it is shown, given its words and the upper case
/// of their first letter.
pub fn display_name_given(spaced: &[char], first_upper: &str) -> (r: String)
    ensures
        r@ == shown_with(spaced@, first_upper@),
{
    let mut big: Vec<char> = Vec::new();
    if spaced.len() > 0 {
        big = chars_of(first_upper);
        let rest = char_range(spaced, 1, spaced.len());
        push_chars(&mut big, rest.as_slice());
    } else {
        assert(big@ =~= spaced@);
    }
    let mixed = vec!['M', 't', 'x'];
    let small = vec!['m', 't', 'x'];
    let upper = vec!['M', 'T', 'X'];
    assert(mixed@ =~= seq!['M', 't', 'x']);
    assert(small@ =~= seq!['m', 't', 'x']);
    assert(upper@ =~= seq!['M', 'T', 'X']);
    let out = replace_chars(big.as_slice(), mixed.as_slice(), upper.as_slice());
    let out = replace_chars(out.as_slice(), small.as_slice(), upper.as_slice());
    string_of(out.as_slice())
}

/// The name of a patch or preset as it is shown.
pub fn display_name(name: &str) -> (r: String)
    ensures
        r@ == shown_name(name@),
{
    let chars = chars_of(name);
    let hyphen = vec!['-'];
    let blank = vec![' '];
    assert(hyphen@ =~= seq!['-']);
    assert(blank@ =~= seq![' ']);
    let spaced = replace_chars(chars.as_slice(), hyphen.as_slice(), blank.as_slice());
    if spaced.len() == 0 {
        return display_name_given(spaced.as_slice(), "");
    }
    let first = to_uppercase(spaced[0]);
    display_name_given(spaced.as_slice(), first.as_str())
}

/// How many effects are kept.
pub open spec fn kept_text(skills: nat, monsters: nat) -> Seq<char> {
    if skills == 0 && monsters == 0 {
        "all effects reduced"@
    } else {
        counted(skills, "skill"@) + " · "@ + counted(monsters, "monster"@) + " kept original"@
    }
}

/// How many effects are kept.
pub fn kept_caption(skills: usize, monsters: usize) -> (r: String)
    ensures
        r@ == kept_text(skills as nat, monsters as nat),
{
    if skills == 0 && monsters == 0 {
        return "all effects reduced".to_owned();
    }
    let mut r = count_label(skills, "skill");
    r.append(" · ");
    let m = count_label(monsters, "monster");
    r.append(m.as_str());
    r.append(" kept original");
    r
}

/// The state of the game, as the header shows it.
pub fn patch_state_pill(state: PatchState) -> (r: &'static str)
    ensures
        r@ == (match state {
            PatchState::Clean => "Not patched"@,
            PatchState::Patched => "Patched"@,
            PatchState::StaleBackup => "Obsolete backup"@,
            PatchState::PatchedMissingBackup => "Backup missing"@,
        }),
{
    match state {
        PatchState::Clean => "Not patched",
        PatchState::Patched => "Patched",
        PatchState::StaleBackup => "Obsolete backup",
        PatchState::PatchedMissingBackup => "Backup missing",
    }
}

pub open spec fn applied_text(
    changed_files: nat,
    touched_files: nat,
    backup_path: Seq<char>,
) -> Seq<char> {
    "Applied "@ + decimal(changed_files) + " file(s). Touched "@ + decimal(touched_files)
        + " bundle/index file(s). Backup: "@ + backup_path
}

/// What is said after applying.
pub fn applied_message(changed_files: usize, touched_files: usize, backup_path: &str) -> (r: String)
    ensures
        r@ == applied_text(changed_files as nat, touched_files as nat, backup_path@),
{
    let mut r = "Applied ".to_owned();
    append_number(&mut r, changed_files as u64);
    r.append(" file(s). Touched ");
    append_number(&mut r, touched_files as u64);
    r.append(" bundle/index file(s). Backup: ");
    r.append(backup_path);
    r
}

pub open spec fn restored_text(restored_files: nat, backup_removed: bool) -> Seq<char> {
    if restored_files > 0 {
        "Restored "@ + decimal(restored_files) + " file(s)."@
    } else if backup_removed {
        "Removed obsolete backup."@
    } else {
        "No backup found."@
    }
}

/// What is said after restoring.
pub fn restored_message(report: &RestoreReport) -> (r: String)
    ensures
        r@ == restored_text(report.restored_files as nat, report.backup_removed),
{
    if report.restored_files > 0 {
        let mut r = "Restored ".to_owned();
        append_number(&mut r, report.restored_files as u64);
        r.append(" file(s).");
        r
    } else if report.backup_removed {
        "Removed obsolete backup.".to_owned()
    } else {
        "No backup found.".to_owned()
    }
}

} // verus!
