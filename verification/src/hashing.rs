//! Path hashes of the bundle index.

use crate::bytes::{le_value, lemma_le_inverse, pow256, read_u32_at, read_u64_at};
use crate::text::{chars_of, lower, lower_all, lower_chars, string_of};
use vstd::prelude::*;
use vstd::slice::slice_subrange;

verus! {

/// How the index hashes the paths of its files.
#[derive(Debug, Clone, Copy, PartialEq, Eq, Structural)]
pub enum HashMode {
    Murmur64A,
    Fnv1A,
}

pub const FNV_OFFSET: u64 = 0xcbf29ce484222325;

pub const FNV_PRIME: u64 = 0x100000001b3;

/// 64-bit FNV-1a.
pub open spec fn fnv1a_of(data: Seq<u8>) -> u64
    decreases data.len(),
{
    if data.len() == 0 {
        FNV_OFFSET
    } else {
        (fnv1a_of(data.drop_last()) ^ (data.last() as u64)).wrapping_mul(FNV_PRIME)
    }
}

pub const MURMUR64_EMPTY: u64 = 0xF42A94E69CFF42FE;

pub const MURMUR64_SEED: u64 = 0x1337B33F;

pub const MURMUR64_M: u64 = 0xC6A4A7935BD1E995;

#[verifier::opaque]
pub open spec fn murmur64_mix(k: u64) -> u64 {
    let a = k.wrapping_mul(MURMUR64_M);
    let b = a ^ (a >> 47);
    b.wrapping_mul(MURMUR64_M)
}

/// One MurmurHash64A step: the block `k` goes into the state `h`.
#[verifier::opaque]
pub open spec fn murmur64_step(h: u64, k: u64) -> u64 {
    (h ^ murmur64_mix(k)).wrapping_mul(MURMUR64_M)
}

/// The MurmurHash64A state after the first `n` eight-byte blocks.
pub open spec fn murmur64_blocks(data: Seq<u8>, n: nat) -> u64
    decreases n,
{
    if n == 0 {
        MURMUR64_SEED ^ (data.len() as u64).wrapping_mul(MURMUR64_M)
    } else {
        let k = le_value(data.subrange(8 * (n - 1), (8 * n) as int)) as u64;
        murmur64_step(murmur64_blocks(data, (n - 1) as nat), k)
    }
}

pub open spec fn murmur64_finish(h: u64) -> u64 {
    let a = h ^ (h >> 47);
    let b = a.wrapping_mul(MURMUR64_M);
    b ^ (b >> 47)
}

/// 64-bit MurmurHash64A with the seed of the game's index; the empty path has a
/// fixed hash of its own.
pub open spec fn murmur64a_of(data: Seq<u8>) -> u64 {
    if data.len() == 0 {
        MURMUR64_EMPTY
    } else {
        let n = data.len() / 8;
        let h = murmur64_blocks(data, n);
        let tail = data.subrange((8 * n) as int, data.len() as int);
        if tail.len() == 0 {
            murmur64_finish(h)
        } else {
            murmur64_finish((h ^ (le_value(tail) as u64)).wrapping_mul(MURMUR64_M))
        }
    }
}

pub const MURMUR32_M: u32 = 0x5bd1_e995;

#[verifier::opaque]
pub open spec fn murmur32_mix(k: u32) -> u32 {
    let a = k.wrapping_mul(MURMUR32_M);
    let b = a ^ (a >> 24);
    b.wrapping_mul(MURMUR32_M)
}

/// One MurmurHash2 step: the block `k` goes into the state `h`.
#[verifier::opaque]
pub open spec fn murmur32_step(h: u32, k: u32) -> u32 {
    h.wrapping_mul(MURMUR32_M) ^ murmur32_mix(k)
}

/// The MurmurHash2 state after the first `n` four-byte blocks.
pub open spec fn murmur32_blocks(data: Seq<u8>, n: nat) -> u32
    decreases n,
{
    if n == 0 {
        data.len() as u32
    } else {
        let k = le_value(data.subrange(4 * (n - 1), (4 * n) as int)) as u32;
        murmur32_step(murmur32_blocks(data, (n - 1) as nat), k)
    }
}

pub open spec fn murmur32_tail(h: u32, tail: Seq<u8>) -> u32 {
    if tail.len() == 3 {
        (h ^ ((tail[2] as u32) << 16) ^ ((tail[1] as u32) << 8) ^ (tail[0] as u32)).wrapping_mul(
            MURMUR32_M,
        )
    } else if tail.len() == 2 {
        (h ^ ((tail[1] as u32) << 8) ^ (tail[0] as u32)).wrapping_mul(MURMUR32_M)
    } else if tail.len() == 1 {
        (h ^ (tail[0] as u32)).wrapping_mul(MURMUR32_M)
    } else {
        h
    }
}

/// 32-bit MurmurHash2 with seed zero.
pub open spec fn murmur2_32_of(data: Seq<u8>) -> u32 {
    let n = data.len() / 4;
    let tail = data.subrange((4 * n) as int, data.len() as int);
    let h = murmur32_tail(murmur32_blocks(data, n), tail);
    let a = h ^ (h >> 13);
    let b = a.wrapping_mul(MURMUR32_M);
    b ^ (b >> 15)
}

/// `s` without the slashes at its end.
pub open spec fn trim_slashes(s: Seq<char>) -> Seq<char>
    decreases s.len(),
{
    if s.len() > 0 && s.last() == '/' {
        trim_slashes(s.drop_last())
    } else {
        s
    }
}

/// The spelling of a path that its hash is taken of.
pub open spec fn hashed_spelling(path: Seq<char>) -> Seq<char> {
    lower_all(trim_slashes(path))
}

/// The FNV-1a hash of a path in the index.
pub open spec fn bundle_hash_of(path: Seq<char>) -> u64 {
    fnv1a_of(vstd::utf8::encode_utf8(hashed_spelling(path).push('+').push('+')))
}

/// The hash of a path under either hash mode.
pub open spec fn path_hash_of(mode: HashMode, path: Seq<char>) -> u64 {
    match mode {
        HashMode::Murmur64A => murmur64a_of(vstd::utf8::encode_utf8(hashed_spelling(path))),
        HashMode::Fnv1A => bundle_hash_of(path),
    }
}

/// 64-bit FNV-1a.
pub fn hash_fnv1a(data: &[u8]) -> (h: u64)
    ensures
        h == fnv1a_of(data@),
{
    let mut hash: u64 = FNV_OFFSET;
    let n: usize = data.len();
    let mut i: usize = 0;
    assert(data@.take(0) =~= Seq::<u8>::empty());
    while i < n
        invariant
            i <= n == data@.len(),
            hash == fnv1a_of(data@.take(i as int)),
        decreases n - i,
    {
        hash = (hash ^ (data[i] as u64)).wrapping_mul(FNV_PRIME);
        i = i + 1;
        assert(data@.take(i as int).drop_last() =~= data@.take(i - 1));
    }
    assert(data@.take(n as int) =~= data@);
    hash
}

/// The number that up to eight bytes spell in little-endian order.
fn short_le_value(b: &[u8]) -> (v: u64)
    requires
        b@.len() < 8,
    ensures
        v as nat == le_value(b@),
{
    let n: usize = b.len();
    let mut v: u64 = 0;
    let mut i: usize = n;
    assert(b@.subrange(n as int, n as int) =~= Seq::<u8>::empty());
    proof {
        reveal_with_fuel(pow256, 9);
    }
    while i > 0
        invariant
            i <= n == b@.len(),
            n < 8,
            v as nat == le_value(b@.subrange(i as int, n as int)),
        decreases i,
    {
        i = i - 1;
        proof {
            let whole = b@.subrange(i as int, n as int);
            assert(whole.subrange(1, whole.len() as int) =~= b@.subrange(i + 1, n as int));
            lemma_le_inverse(whole);
            reveal_with_fuel(pow256, 9);
            assert(pow256(whole.len()) <= pow256(7));
        }
        v = v * 256 + b[i] as u64;
    }
    assert(b@.subrange(0, n as int) =~= b@);
    v
}

fn step64(h: u64, k: u64) -> (r: u64)
    ensures
        r == murmur64_step(h, k),
{
    let a: u64 = k.wrapping_mul(MURMUR64_M);
    let b: u64 = a ^ (a >> 47);
    let c: u64 = b.wrapping_mul(MURMUR64_M);
    proof {
        reveal(murmur64_mix);
        reveal(murmur64_step);
    }
    (h ^ c).wrapping_mul(MURMUR64_M)
}

fn step32(h: u32, k: u32) -> (r: u32)
    ensures
        r == murmur32_step(h, k),
{
    let a: u32 = k.wrapping_mul(MURMUR32_M);
    let b: u32 = a ^ (a >> 24);
    let c: u32 = b.wrapping_mul(MURMUR32_M);
    proof {
        reveal(murmur32_mix);
        reveal(murmur32_step);
    }
    h.wrapping_mul(MURMUR32_M) ^ c
}

/// MurmurHash64A as the index uses it.
pub fn murmur_hash64a(data: &[u8]) -> (h: u64)
    ensures
        h == murmur64a_of(data@),
{
    if data.len() == 0 {
        return MURMUR64_EMPTY;
    }
    let total: usize = data.len();
    let blocks: usize = total / 8;
    let mut hash: u64 = MURMUR64_SEED ^ (total as u64).wrapping_mul(MURMUR64_M);
    let mut i: usize = 0;
    while i < blocks
        invariant
            i <= blocks == data@.len() / 8,
            total == data@.len(),
            hash == murmur64_blocks(data@, i as nat),
        decreases blocks - i,
    {
        let block = slice_subrange(data, 8 * i, 8 * i + 8);
        assert(block@.subrange(0, 8) =~= block@);
        if let Some(k) = read_u64_at(block, 0) {
            hash = step64(hash, k);
        }
        i = i + 1;
        assert(data@.subrange(8 * (i - 1), 8 * i) =~= block@);
    }
    let rem = slice_subrange(data, 8 * blocks, data.len());
    if rem.len() > 0 {
        let tail: u64 = short_le_value(rem);
        hash = (hash ^ tail).wrapping_mul(MURMUR64_M);
    }
    let a: u64 = hash ^ (hash >> 47);
    let b: u64 = a.wrapping_mul(MURMUR64_M);
    b ^ (b >> 47)
}

/// 32-bit MurmurHash2 with seed zero.
pub fn murmur2_32(data: &[u8]) -> (h: u32)
    ensures
        h == murmur2_32_of(data@),
{
    let total: usize = data.len();
    let blocks: usize = total / 4;
    let mut h: u32 = #[verifier::truncate] (total as u32);
    let mut i: usize = 0;
    while i < blocks
        invariant
            i <= blocks == data@.len() / 4,
            total == data@.len(),
            h == murmur32_blocks(data@, i as nat),
        decreases blocks - i,
    {
        let block = slice_subrange(data, 4 * i, 4 * i + 4);
        assert(block@.subrange(0, 4) =~= block@);
        if let Some(k) = read_u32_at(block, 0) {
            h = step32(h, k);
        }
        i = i + 1;
        assert(data@.subrange(4 * (i - 1), 4 * i) =~= block@);
    }
    let rem = slice_subrange(data, 4 * blocks, data.len());
    if rem.len() == 3 {
        h = (h ^ ((rem[2] as u32) << 16) ^ ((rem[1] as u32) << 8) ^ (rem[0] as u32)).wrapping_mul(
            MURMUR32_M,
        );
    } else if rem.len() == 2 {
        h = (h ^ ((rem[1] as u32) << 8) ^ (rem[0] as u32)).wrapping_mul(MURMUR32_M);
    } else if rem.len() == 1 {
        h = (h ^ (rem[0] as u32)).wrapping_mul(MURMUR32_M);
    }
    let a: u32 = h ^ (h >> 13);
    let b: u32 = a.wrapping_mul(MURMUR32_M);
    b ^ (b >> 15)
}

/// The spelling of a path that its hash is taken of.
fn hashed_chars(path: &str) -> (r: Vec<char>)
    ensures
        r@ == hashed_spelling(path@),
{
    let mut chars = chars_of(path);
    while chars.len() > 0 && chars[chars.len() - 1] == '/'
        invariant
            trim_slashes(chars@) == trim_slashes(path@),
        decreases chars@.len(),
    {
        let ghost before = chars@;
        chars.pop();
        assert(chars@ =~= before.drop_last());
    }
    lower_chars(chars.as_slice())
}

/// The FNV-1a hash of a path in the index.
pub fn fnv1a_bundle_hash(path: &str) -> (h: u64)
    ensures
        h == bundle_hash_of(path@),
{
    let mut chars = hashed_chars(path);
    chars.push('+');
    chars.push('+');
    let spelled = string_of(chars.as_slice());
    hash_fnv1a(spelled.as_str().as_bytes())
}

/// The hash of a path under either hash mode.
pub fn hash_path(hash_mode: HashMode, path: &str) -> (h: u64)
    ensures
        h == path_hash_of(hash_mode, path@),
{
    match hash_mode {
        HashMode::Murmur64A => {
            let chars = hashed_chars(path);
            let spelled = string_of(chars.as_slice());
            murmur_hash64a(spelled.as_str().as_bytes())
        },
        HashMode::Fnv1A => fnv1a_bundle_hash(path),
    }
}

/// The hash under which a file path is looked up.
pub fn filepath_hash(path: &str) -> (h: u64)
    ensures
        h == bundle_hash_of(path@),
{
    fnv1a_bundle_hash(path)
}

proof fn lemma_trim_commutes_with_lower(s: Seq<char>)
    ensures
        trim_slashes(lower_all(s)) == lower_all(trim_slashes(s)),
    decreases s.len(),
{
    if s.len() > 0 {
        assert(lower_all(s).drop_last() =~= lower_all(s.drop_last()));
        assert(lower_all(s).last() == lower(s.last()));
        if s.last() == '/' {
            lemma_trim_commutes_with_lower(s.drop_last());
        }
    }
}

/// Paths that differ only in the case of ASCII letters have the same hash.
pub proof fn law_hash_ignores_case(mode: HashMode, a: Seq<char>, b: Seq<char>)
    requires
        lower_all(a) == lower_all(b),
    ensures
        path_hash_of(mode, a) == path_hash_of(mode, b),
        bundle_hash_of(a) == bundle_hash_of(b),
{
    lemma_trim_commutes_with_lower(a);
    lemma_trim_commutes_with_lower(b);
}

/// Slashes at the end of a path do not change its hash.
pub proof fn law_hash_ignores_trailing_slash(mode: HashMode, path: Seq<char>)
    ensures
        path_hash_of(mode, path.push('/')) == path_hash_of(mode, path),
        bundle_hash_of(path.push('/')) == bundle_hash_of(path),
{
    assert(path.push('/').drop_last() =~= path);
}

} // verus!
