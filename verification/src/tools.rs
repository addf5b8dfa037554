//! What the tools beside the patcher compute: telling two installs apart, and
//! choosing what a benchmark runs on.

use crate::bytes::{copy_range, push_all, same_bytes};
use crate::hashing::{fnv1a_of, hash_fnv1a};
use crate::index::BundleFile;
use crate::patches::PatchId;
use crate::targets::targets;
use crate::text::{
    char_range, chars_of, decimal, decimal_chars, ends_with, has_suffix, hex_digits, lower_all,
    lower_chars, push_hex, same_text, string_of, texts,
};
use crate::transforms::{audit_transform, transformed, TransformError};
use vstd::prelude::*;

verus! {

/// The hash by which the contents of files are told apart.
pub fn content_hash(bytes: &[u8]) -> (r: u64)
    ensures
        r == fnv1a_of(bytes@),
{
    hash_fnv1a(bytes)
}

/// The last dot among the first `n` characters.
pub open spec fn last_dot(path: Seq<char>, n: nat) -> Option<int>
    decreases n,
{
    if n == 0 {
        None
    } else if path[n - 1] == '.' {
        Some(n - 1)
    } else {
        last_dot(path, (n - 1) as nat)
    }
}

/// The ending of a path, with its dot.
pub open spec fn ending_of(path: Seq<char>) -> Seq<char> {
    match last_dot(path, path.len()) {
        Some(i) => path.subrange(i, path.len() as int),
        None => Seq::empty(),
    }
}

/// The ending of a path, with its dot.
pub fn ext_of(path: &str) -> (r: String)
    ensures
        r@ == ending_of(path@),
{
    let chars = chars_of(path);
    let n: usize = chars.len();
    let mut i: usize = n;
    while i > 0
        invariant
            i <= n == chars@.len(),
            chars@ == path@,
            last_dot(path@, path@.len()) == last_dot(path@, i as nat),
        decreases i,
    {
        if chars[i - 1] == '.' {
            let part = char_range(chars.as_slice(), i - 1, n);
            return string_of(part.as_slice());
        }
        i = i - 1;
    }
    let r = String::new();
    assert(r@ =~= Seq::<char>::empty());
    r
}

/// How a file of one index stands to that of another.
#[derive(Debug, Clone, Copy, PartialEq, Eq, Structural)]
pub enum RecordDiff {
    Added,
    /// It lies in another bundle or has another size.
    Changed,
    /// Only its bytes can tell.
    SameRecord,
}

/// How a file stands to the one that was there before.
pub fn record_diff(before: Option<&BundleFile>, after: &BundleFile) -> (r: RecordDiff)
    ensures
        r == (match before {
            None => RecordDiff::Added,
            Some(b) => if b@.bundle_name != after@.bundle_name || b@.size != after@.size {
                RecordDiff::Changed
            } else {
                RecordDiff::SameRecord
            },
        }),
{
    match before {
        None => RecordDiff::Added,
        Some(b) => if !same_text(b.bundle_name.as_str(), after.bundle_name.as_str()) || b.size
            != after.size {
            RecordDiff::Changed
        } else {
            RecordDiff::SameRecord
        },
    }
}

/// A changed file, as the list of changes names it.
#[derive(Debug)]
pub struct ChangeRow {
    pub path: String,
    pub status: &'static str,
    pub before_bundle: String,
    pub after_bundle: String,
    /// The size before, unless the file is new.
    pub before_size: Option<u32>,
    pub after_size: u64,
    pub content_hash: u64,
}

/// A line of the list of changes.
pub open spec fn manifest_text(row: ChangeRow) -> Seq<char> {
    row.path@ + ","@ + row.status@ + ","@ + row.before_bundle@ + ","@ + row.after_bundle@ + ","@ + (
    match row.before_size {
        Some(n) => decimal(n as nat),
        None => "-1"@,
    }) + ","@ + decimal(row.after_size as nat) + ","@ + hex_digits(row.content_hash as nat, 16) + ","@
        + ending_of(row.path@) + "\n"@
}

/// A line of the list of changes.
pub fn manifest_line(row: &ChangeRow) -> (r: String)
    ensures
        r@ == manifest_text(*row),
{
    let mut r = row.path.clone();
    r.append(",");
    r.append(row.status);
    r.append(",");
    r.append(row.before_bundle.as_str());
    r.append(",");
    r.append(row.after_bundle.as_str());
    r.append(",");
    match row.before_size {
        Some(n) => {
            let digits = decimal_chars(n as u64);
            let text = string_of(digits.as_slice());
            r.append(text.as_str());
        },
        None => {
            r.append("-1");
        },
    }
    r.append(",");
    let digits = decimal_chars(row.after_size);
    let text = string_of(digits.as_slice());
    r.append(text.as_str());
    r.append(",");
    let mut hash: Vec<char> = Vec::new();
    push_hex(&mut hash, row.content_hash, 16);
    assert(hash@ =~= hex_digits(row.content_hash as nat, 16));
    let text = string_of(hash.as_slice());
    r.append(text.as_str());
    r.append(",");
    let ending = ext_of(row.path.as_str());
    r.append(ending.as_str());
    r.append("\n");
    r
}

/// What a sample takes of the files from `i` on, where `used` of the budget is
/// spent: those that fit into what is left.
pub open spec fn sampled(sizes: Seq<u64>, stride: int, budget: int, i: int, used: int) -> Seq<usize>
    decreases
            if i < sizes.len() {
                sizes.len() - i
            } else {
                0
            },
{
    if i < 0 || i >= sizes.len() || stride <= 0 {
        Seq::empty()
    } else if used + sizes[i] > budget {
        sampled(sizes, stride, budget, i + stride, used)
    } else {
        seq![i as usize] + sampled(sizes, stride, budget, i + stride, used + sizes[i])
    }
}

/// Every so-many-th file, as long as the files fit into the budget.
pub fn sample_files(sizes: &Vec<u64>, stride: usize, budget: u64) -> (r: Vec<usize>)
    ensures
        r@ == sampled(
            sizes@,
            if stride == 0 {
                1
            } else {
                stride as int
            },
            budget as int,
            0,
            0,
        ),
{
    let step: usize = if stride == 0 {
        1
    } else {
        stride
    };
    let n: usize = sizes.len();
    let mut r: Vec<usize> = Vec::new();
    let mut used: u64 = 0;
    let mut i: usize = 0;
    let ghost all = sampled(sizes@, step as int, budget as int, 0, 0);
    assert(r@ + all =~= all);
    while i < n
        invariant
            n == sizes@.len(),
            step >= 1,
            step == (if stride == 0 {
                1
            } else {
                stride as int
            }),
            used <= budget,
            all == r@ + sampled(sizes@, step as int, budget as int, i as int, used as int),
            all == sampled(sizes@, step as int, budget as int, 0, 0),
        decreases n - i,
    {
        let ghost before = r@;
        let size: u64 = sizes[i];
        if size <= budget - used {
            r.push(i);
            used = used + size;
        }
        proof {
            assert(all =~= r@ + sampled(
                sizes@,
                step as int,
                budget as int,
                i + step,
                used as int,
            ));
        }
        if step >= n - i {
            assert(sampled(sizes@, step as int, budget as int, i + step, used as int)
                =~= Seq::<usize>::empty());
            assert(all =~= r@);
            return r;
        }
        i = i + step;
    }
    assert(all =~= r@);
    r
}

/// A flag that needs a value has none.
#[derive(Debug, Clone, Copy, PartialEq, Eq, Structural)]
pub struct MissingValue;

/// The first argument from `i` on that is the flag, or how many there are.
pub open spec fn flag_at(args: Seq<Seq<char>>, name: Seq<char>, i: int) -> int
    decreases args.len() - i,
{
    if i < 0 || i >= args.len() {
        args.len() as int
    } else if args[i] == name {
        i
    } else {
        flag_at(args, name, i + 1)
    }
}

/// The value behind a flag, if the flag is there.
pub fn flag_value<'a>(args: &'a Vec<String>, name: &str) -> (r: Result<
    Option<&'a str>,
    MissingValue,
>)
    ensures
        ({
            let all = texts(args@);
            let at = flag_at(all, name@, 0);
            match r {
                Ok(None) => at >= all.len(),
                Ok(Some(v)) => at + 1 < all.len() && v@ == all[at + 1],
                Err(_) => at == all.len() - 1,
            }
        }),
{
    let ghost all = texts(args@);
    let n: usize = args.len();
    let mut i: usize = 0;
    while i < n
        invariant
            i <= n == args@.len(),
            all == texts(args@),
            flag_at(all, name@, 0) == flag_at(all, name@, i as int),
        decreases n - i,
    {
        assert(all[i as int] == args@[i as int]@);
        if same_text(args[i].as_str(), name) {
            if i == n - 1 {
                return Err(MissingValue);
            }
            assert(all[i + 1] == args@[i + 1]@);
            return Ok(Some(args[i + 1].as_str()));
        }
        i = i + 1;
    }
    Ok(None)
}

/// The state of the noise after `n` steps.
pub open spec fn noise_state(state: u32, n: nat) -> u32
    decreases n,
{
    if n == 0 {
        state
    } else {
        noise_state(state, (n - 1) as nat).wrapping_mul(1664525).wrapping_add(1013904223)
    }
}

/// The byte that a state of the noise gives.
pub open spec fn noise_byte(state: u32) -> u8 {
    (state >> 24) as u8
}

/// `n` bytes of noise.
pub open spec fn noise(state: u32, n: nat) -> Seq<u8> {
    Seq::new(n, |i: int| noise_byte(noise_state(state, (i + 1) as nat)))
}

/// What the runs of text between the noise are made of.
pub open spec fn run_text() -> Seq<u8> {
    vstd::utf8::encode_utf8("path/of/exile/2/bundle/data/"@)
}

/// A text `n` times.
pub open spec fn repeated(s: Seq<u8>, n: nat) -> Seq<u8>
    decreases n,
{
    if n == 0 {
        Seq::empty()
    } else {
        repeated(s, (n - 1) as nat) + s
    }
}

/// The first `n` blocks of the benchmark's data: noise and a run of text.
pub open spec fn synth_blocks(n: nat) -> Seq<u8>
    decreases n,
{
    if n == 0 {
        Seq::empty()
    } else {
        synth_blocks((n - 1) as nat) + noise(noise_state(0x2545_f491, ((n - 1) * 4096) as nat), 4096)
            + repeated(run_text(), 146)
    }
}

proof fn lemma_noise_state_step(state: u32, a: nat, b: nat)
    ensures
        noise_state(noise_state(state, a), b) == noise_state(state, a + b),
    decreases b,
{
    if b > 0 {
        lemma_noise_state_step(state, a, (b - 1) as nat);
    }
}

fn repeat_bytes(s: &[u8], n: usize) -> (r: Vec<u8>)
    ensures
        r@ == repeated(s@, n as nat),
{
    let mut r: Vec<u8> = Vec::new();
    let mut i: usize = 0;
    while i < n
        invariant
            i <= n,
            r@ == repeated(s@, i as nat),
        decreases n - i,
    {
        push_all(&mut r, s);
        i = i + 1;
    }
    r
}

/// Data to compress: noise with runs of text in between, `len` bytes of it.
pub fn synth_data(len: usize) -> (r: Vec<u8>)
    ensures
        exists|n: nat| synth_blocks(n).len() >= len && r@ == #[trigger] synth_blocks(n).take(
            len as int,
        ),
{
    let text = repeat_bytes("path/of/exile/2/bundle/data/".as_bytes(), 146);
    let mut out: Vec<u8> = Vec::new();
    let mut state: u32 = 0x2545_f491;
    let ghost mut n: nat = 0;
    while out.len() < len
        invariant
            text@ == repeated(run_text(), 146),
            out@ == synth_blocks(n),
            state == noise_state(0x2545_f491, n * 4096),
        decreases
                if out@.len() < len {
                    len - out@.len()
                } else {
                    0
                },
    {
        let ghost before = out@;
        let ghost first = state;
        let mut k: usize = 0;
        assert(noise(first, 0) =~= Seq::<u8>::empty());
        assert(out@ =~= before + noise(first, 0));
        while k < 4096
            invariant
                k <= 4096,
                state == noise_state(first, k as nat),
                out@ == before + noise(first, k as nat),
            decreases 4096 - k,
        {
            state = state.wrapping_mul(1664525).wrapping_add(1013904223);
            let high: u32 = state >> 24;
            assert(state >> 24 < 256) by (bit_vector);
            let byte: u8 = high as u8;
            out.push(byte);
            k = k + 1;
            assert(out@ =~= before + noise(first, k as nat));
        }
        push_all(&mut out, text.as_slice());
        proof {
            lemma_noise_state_step(0x2545_f491, n * 4096, 4096);
            n = n + 1;
            assert(out@ =~= synth_blocks(n));
        }
    }
    let r = copy_range(out.as_slice(), 0, len);
    assert(r@ =~= synth_blocks(n).take(len as int));
    r
}

/// What came of holding a patched file against what a patch makes of the
/// original one.
#[derive(Debug, Clone, Copy, PartialEq, Eq, Structural)]
pub enum AuditOutcome {
    /// No patch is for the file.
    NotTargeted,
    /// The patch makes the same of it.
    Match,
    /// A particle file of a microtransaction, which others blank with a template.
    PetTemplate,
    /// The patch leaves the patched file as it is: it removes nothing that was
    /// kept.
    NothingToRemove,
    Unexplained,
}

/// The patches that are held against patched files, in this order.
pub open spec fn audited_patches() -> Seq<PatchId> {
    seq![
        PatchId::DisableSounds,
        PatchId::SkillSounds,
        PatchId::MonsterSounds,
        PatchId::MtxSoft,
    ]
}

/// The first patch from the `i`-th on that is for the file.
pub open spec fn first_targeting(path: Seq<char>, i: int) -> Option<PatchId>
    decreases audited_patches().len() - i,
{
    if i < 0 || i >= audited_patches().len() {
        None
    } else if targets(audited_patches()[i], path) {
        Some(audited_patches()[i])
    } else {
        first_targeting(path, i + 1)
    }
}

/// What a patch that is for a file has to do with how it was patched.
pub open spec fn audited(
    patch: PatchId,
    path: Seq<char>,
    before: Seq<u8>,
    after: Seq<u8>,
) -> Result<AuditOutcome, TransformError> {
    match transformed(patch, path, before, "2.4"@) {
        Err(e) => Err(e),
        Ok(out) => if out == after {
            Ok(AuditOutcome::Match)
        } else if patch is MtxSoft && ends_with(lower_all(path), ".pet"@) {
            Ok(AuditOutcome::PetTemplate)
        } else {
            match transformed(patch, path, after, "2.4"@) {
                Err(e) => Err(e),
                Ok(again) => if again == after {
                    Ok(AuditOutcome::NothingToRemove)
                } else {
                    Ok(AuditOutcome::Unexplained)
                },
            }
        },
    }
}

fn audit_patch(patch: PatchId, path: &str, before: &[u8], after: &[u8]) -> (r: Result<
    AuditOutcome,
    TransformError,
>)
    requires
        targets(patch, path@),
    ensures
        r == audited(patch, path@, before@, after@),
{
    let out = match audit_transform(patch, path, before) {
        Some(Ok(out)) => out,
        Some(Err(e)) => return Err(e),
        None => return Ok(AuditOutcome::NotTargeted),
    };
    if same_bytes(out.as_slice(), after) {
        return Ok(AuditOutcome::Match);
    }
    let chars = chars_of(path);
    let lower = lower_chars(chars.as_slice());
    let pet = chars_of(".pet");
    let soft: bool = match patch {
        PatchId::MtxSoft => true,
        _ => false,
    };
    if soft && has_suffix(lower.as_slice(), pet.as_slice()) {
        return Ok(AuditOutcome::PetTemplate);
    }
    match audit_transform(patch, path, after) {
        Some(Ok(again)) => if same_bytes(again.as_slice(), after) {
            Ok(AuditOutcome::NothingToRemove)
        } else {
            Ok(AuditOutcome::Unexplained)
        },
        Some(Err(e)) => Err(e),
        None => Ok(AuditOutcome::NothingToRemove),
    }
}

/// Holds a patched file against what the first patch that is for it makes of the
/// original one.
pub fn audit_change(path: &str, before: &[u8], after: &[u8]) -> (r: Result<
    AuditOutcome,
    TransformError,
>)
    ensures
        r == (match first_targeting(path@, 0) {
            None => Ok::<AuditOutcome, TransformError>(AuditOutcome::NotTargeted),
            Some(patch) => audited(patch, path@, before@, after@),
        }),
{
    let patches: Vec<PatchId> = vec![
        PatchId::DisableSounds,
        PatchId::SkillSounds,
        PatchId::MonsterSounds,
        PatchId::MtxSoft,
    ];
    assert(patches@ =~= audited_patches());
    let n: usize = patches.len();
    let mut i: usize = 0;
    while i < n
        invariant
            i <= n == patches@.len(),
            patches@ == audited_patches(),
            first_targeting(path@, 0) == first_targeting(path@, i as int),
        decreases n - i,
    {
        if crate::targets::patch_targets_path(patches[i], path) {
            return audit_patch(patches[i], path, before, after);
        }
        i = i + 1;
    }
    Ok(AuditOutcome::NotTargeted)
}

/// The audit recognizes every file that one of its patches made.
pub proof fn law_own_patches_are_explained(path: Seq<char>, before: Seq<u8>, patch: PatchId)
    requires
        first_targeting(path, 0) == Some(patch),
    ensures
        transformed(patch, path, before, "2.4"@) is Ok,
        audited(patch, path, before, transformed(patch, path, before, "2.4"@)->Ok_0) == Ok::<
            AuditOutcome,
            TransformError,
        >(AuditOutcome::Match),
{
    reveal_with_fuel(first_targeting, 5);
    crate::transforms::law_silenced_files_stay(patch, path, before, "2.4"@);
}

} // verus!
