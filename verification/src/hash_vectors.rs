//! Hashes of known byte strings, and of paths in plain letters.

use crate::bytes::le_value;
use crate::hashing::{
    bundle_hash_of, fnv1a_of, hashed_spelling, murmur2_32_of, murmur32_blocks, murmur32_mix,
    murmur32_step, murmur64_blocks, murmur64_finish, murmur64_mix, murmur64_step, murmur64a_of,
    path_hash_of, trim_slashes, HashMode,
};
use crate::text::lower_all;
use vstd::prelude::*;
use vstd::utf8::encode_utf8;

verus! {

/// The number that eight bytes spell.
proof fn lemma_number8(a: u8, b: u8, c: u8, d: u8, e: u8, f: u8, g: u8, h: u8)
    ensures
        le_value(seq![a, b, c, d, e, f, g, h]) == a + 256 * (b + 256 * (c + 256 * (d + 256 * (e
            + 256 * (f + 256 * (g + 256 * h)))))),
{
    let s = seq![a, b, c, d, e, f, g, h];
    assert(s.subrange(1, 8) =~= seq![b, c, d, e, f, g, h]);
    lemma_number_short(seq![b, c, d, e, f, g, h]);
}

/// The number that up to seven bytes spell.
proof fn lemma_number_short(s: Seq<u8>)
    requires
        s.len() < 8,
    ensures
        s.len() == 0 ==> le_value(s) == 0,
        s.len() == 1 ==> le_value(s) == s[0],
        s.len() == 2 ==> le_value(s) == s[0] + 256 * s[1],
        s.len() == 3 ==> le_value(s) == s[0] + 256 * (s[1] + 256 * s[2]),
        s.len() == 4 ==> le_value(s) == s[0] + 256 * (s[1] + 256 * (s[2] + 256 * s[3])),
        s.len() == 5 ==> le_value(s) == s[0] + 256 * (s[1] + 256 * (s[2] + 256 * (s[3] + 256
            * s[4]))),
        s.len() == 6 ==> le_value(s) == s[0] + 256 * (s[1] + 256 * (s[2] + 256 * (s[3] + 256 * (
        s[4] + 256 * s[5])))),
        s.len() == 7 ==> le_value(s) == s[0] + 256 * (s[1] + 256 * (s[2] + 256 * (s[3] + 256 * (
        s[4] + 256 * (s[5] + 256 * s[6]))))),
    decreases s.len(),
{
    if s.len() > 0 {
        lemma_number_short(s.subrange(1, s.len() as int));
    }
}

/// The fixed hash of the empty path is what the formula gives for it: the seed, with
/// no block and no rest.
pub proof fn law_empty_path_follows_the_formula()
    ensures
        murmur64a_of(Seq::empty()) == murmur64_finish(0x1337B33F),
        murmur64a_of(Seq::empty()) == 0xf42a94e69cff42feu64,
{
    assert(0x000000001337b33fu64 ^ 0x0000000000000000u64 == 0x000000001337b33fu64
        && 0x000000001337b33fu64 >> 47 == 0x0000000000000000u64
        && 0x000000001337b33fu64 ^ 0x0000000000000000u64 == 0x000000001337b33fu64
        && 0xf42a94e69cfeaaabu64 >> 47 == 0x000000000001e855u64
        && 0xf42a94e69cfeaaabu64 ^ 0x000000000001e855u64 == 0xf42a94e69cff42feu64) by (bit_vector);
    assert(0x0000000000000000u64.wrapping_mul(0xc6a4a7935bd1e995u64) == 0x0000000000000000u64);
    assert(0x000000001337b33fu64.wrapping_mul(0xc6a4a7935bd1e995u64) == 0xf42a94e69cfeaaabu64);
}

proof fn lemma_known64_one_byte()
    ensures
        murmur64a_of(seq![97u8]) == 0xf8d232a19e90f23cu64,
{
    let s = seq![97u8];
    assert(0x000000001337b33fu64 ^ 0xc6a4a7935bd1e995u64 == 0xc6a4a79348e65aaau64
        && 0xc6a4a79348e65aaau64 ^ 0x0000000000000061u64 == 0xc6a4a79348e65acbu64
        && 0xf20f8bfa5f709b27u64 >> 47 == 0x000000000001e41fu64
        && 0xf20f8bfa5f709b27u64 ^ 0x000000000001e41fu64 == 0xf20f8bfa5f717f38u64
        && 0xf8d232a19e910398u64 >> 47 == 0x000000000001f1a4u64
        && 0xf8d232a19e910398u64 ^ 0x000000000001f1a4u64 == 0xf8d232a19e90f23cu64) by (bit_vector);
    assert(0x0000000000000001u64.wrapping_mul(0xc6a4a7935bd1e995u64) == 0xc6a4a7935bd1e995u64);
    assert(0xc6a4a79348e65acbu64.wrapping_mul(0xc6a4a7935bd1e995u64) == 0xf20f8bfa5f709b27u64);
    assert(0xf20f8bfa5f717f38u64.wrapping_mul(0xc6a4a7935bd1e995u64) == 0xf8d232a19e910398u64);
    assert(murmur64_blocks(s, 0) == 0xc6a4a79348e65aaau64);
    assert(murmur64_finish(0xf20f8bfa5f709b27u64) == 0xf8d232a19e90f23cu64);
    assert(s.subrange(0, 1) =~= seq![97u8]);
    lemma_number_short(seq![97u8]);
    assert(le_value(seq![97u8]) as u64 == 0x0000000000000061u64);
}

proof fn lemma_known64_one_block()
    ensures
        murmur64a_of(seq![109u8, 101u8, 116u8, 97u8, 100u8, 97u8, 116u8, 97u8]) == 0x5e97c9114ce378d5u64,
{
    let s = seq![109u8, 101u8, 116u8, 97u8, 100u8, 97u8, 116u8, 97u8];
    assert(0x000000001337b33fu64 ^ 0x35253c9ade8f4ca8u64 == 0x35253c9acdb8ff97u64
        && 0x02cd54cb360c3d71u64 >> 47 == 0x000000000000059au64
        && 0x02cd54cb360c3d71u64 ^ 0x000000000000059au64 == 0x02cd54cb360c38ebu64
        && 0x35253c9acdb8ff97u64 ^ 0x347ec29e95c603c7u64 == 0x015bfe04587efc50u64
        && 0x9c81425f82ddaa90u64 >> 47 == 0x0000000000013902u64
        && 0x9c81425f82ddaa90u64 ^ 0x0000000000013902u64 == 0x9c81425f82dc9392u64
        && 0x5e97c9114ce3c5fau64 >> 47 == 0x000000000000bd2fu64
        && 0x5e97c9114ce3c5fau64 ^ 0x000000000000bd2fu64 == 0x5e97c9114ce378d5u64) by (bit_vector);
    assert(0x0000000000000008u64.wrapping_mul(0xc6a4a7935bd1e995u64) == 0x35253c9ade8f4ca8u64);
    assert(0x617461646174656du64.wrapping_mul(0xc6a4a7935bd1e995u64) == 0x02cd54cb360c3d71u64);
    assert(0x02cd54cb360c38ebu64.wrapping_mul(0xc6a4a7935bd1e995u64) == 0x347ec29e95c603c7u64);
    assert(0x015bfe04587efc50u64.wrapping_mul(0xc6a4a7935bd1e995u64) == 0x9c81425f82ddaa90u64);
    assert(0x9c81425f82dc9392u64.wrapping_mul(0xc6a4a7935bd1e995u64) == 0x5e97c9114ce3c5fau64);
    assert(murmur64_blocks(s, 0) == 0x35253c9acdb8ff97u64);
    assert(s.subrange(0, 8) =~= seq![109u8, 101u8, 116u8, 97u8, 100u8, 97u8, 116u8, 97u8]);
    lemma_number8(109u8, 101u8, 116u8, 97u8, 100u8, 97u8, 116u8, 97u8);
    assert(le_value(seq![109u8, 101u8, 116u8, 97u8, 100u8, 97u8, 116u8, 97u8]) as u64 == 0x617461646174656du64);
    assert(murmur64_mix(0x617461646174656du64) == 0x347ec29e95c603c7u64) by {
        reveal(murmur64_mix);
    }
    assert(murmur64_step(0x35253c9acdb8ff97u64, 0x617461646174656du64) == 0x9c81425f82ddaa90u64) by {
        reveal(murmur64_step);
    }
    assert(murmur64_blocks(s, 1) == 0x9c81425f82ddaa90u64);
    assert(murmur64_finish(0x9c81425f82ddaa90u64) == 0x5e97c9114ce378d5u64);
    assert(s.subrange(8, 8) =~= Seq::<u8>::empty());
}

proof fn lemma_known64_block_and_rest()
    ensures
        murmur64a_of(seq![109u8, 101u8, 116u8, 97u8, 100u8, 97u8, 116u8, 97u8, 47u8, 97u8, 46u8, 111u8, 116u8]) == 0x09ea98058025efa1u64,
{
    let s = seq![109u8, 101u8, 116u8, 97u8, 100u8, 97u8, 116u8, 97u8, 47u8, 97u8, 46u8, 111u8, 116u8];
    assert(0x000000001337b33fu64 ^ 0x165c827ba9a8dc91u64 == 0x165c827bba9f6faeu64
        && 0x02cd54cb360c3d71u64 >> 47 == 0x000000000000059au64
        && 0x02cd54cb360c3d71u64 ^ 0x000000000000059au64 == 0x02cd54cb360c38ebu64
        && 0x165c827bba9f6faeu64 ^ 0x347ec29e95c603c7u64 == 0x222240e52f596c69u64
        && 0xad468e52c770aa1du64 ^ 0x000000746f2e612fu64 == 0xad468e26a85ecb32u64
        && 0x39df5f12efeec61au64 >> 47 == 0x00000000000073beu64
        && 0x39df5f12efeec61au64 ^ 0x00000000000073beu64 == 0x39df5f12efeeb5a4u64
        && 0x09ea98058025fc74u64 >> 47 == 0x00000000000013d5u64
        && 0x09ea98058025fc74u64 ^ 0x00000000000013d5u64 == 0x09ea98058025efa1u64) by (bit_vector);
    assert(0x000000000000000du64.wrapping_mul(0xc6a4a7935bd1e995u64) == 0x165c827ba9a8dc91u64);
    assert(0x617461646174656du64.wrapping_mul(0xc6a4a7935bd1e995u64) == 0x02cd54cb360c3d71u64);
    assert(0x02cd54cb360c38ebu64.wrapping_mul(0xc6a4a7935bd1e995u64) == 0x347ec29e95c603c7u64);
    assert(0x222240e52f596c69u64.wrapping_mul(0xc6a4a7935bd1e995u64) == 0xad468e52c770aa1du64);
    assert(0xad468e26a85ecb32u64.wrapping_mul(0xc6a4a7935bd1e995u64) == 0x39df5f12efeec61au64);
    assert(0x39df5f12efeeb5a4u64.wrapping_mul(0xc6a4a7935bd1e995u64) == 0x09ea98058025fc74u64);
    assert(murmur64_blocks(s, 0) == 0x165c827bba9f6faeu64);
    assert(s.subrange(0, 8) =~= seq![109u8, 101u8, 116u8, 97u8, 100u8, 97u8, 116u8, 97u8]);
    lemma_number8(109u8, 101u8, 116u8, 97u8, 100u8, 97u8, 116u8, 97u8);
    assert(le_value(seq![109u8, 101u8, 116u8, 97u8, 100u8, 97u8, 116u8, 97u8]) as u64 == 0x617461646174656du64);
    assert(murmur64_mix(0x617461646174656du64) == 0x347ec29e95c603c7u64) by {
        reveal(murmur64_mix);
    }
    assert(murmur64_step(0x165c827bba9f6faeu64, 0x617461646174656du64) == 0xad468e52c770aa1du64) by {
        reveal(murmur64_step);
    }
    assert(murmur64_blocks(s, 1) == 0xad468e52c770aa1du64);
    assert(murmur64_finish(0x39df5f12efeec61au64) == 0x09ea98058025efa1u64);
    assert(s.subrange(8, 13) =~= seq![47u8, 97u8, 46u8, 111u8, 116u8]);
    lemma_number_short(seq![47u8, 97u8, 46u8, 111u8, 116u8]);
    assert(le_value(seq![47u8, 97u8, 46u8, 111u8, 116u8]) as u64 == 0x000000746f2e612fu64);
}

proof fn lemma_known_fnv_one_byte()
    ensures
        fnv1a_of(seq![97u8]) == 0xaf63dc4c8601ec8cu64,
{
    let s = seq![97u8];
    let none: Seq<u8> = Seq::empty();
    assert(fnv1a_of(none) == 0xcbf29ce484222325u64);
    assert(0xcbf29ce484222325u64 ^ 0x0000000000000061u64 == 0xcbf29ce484222344u64) by (bit_vector);
    assert(0xcbf29ce484222344u64.wrapping_mul(0x00000100000001b3u64) == 0xaf63dc4c8601ec8cu64);
    assert(seq![97u8].drop_last() =~= none);
    assert(fnv1a_of(seq![97u8]) == 0xaf63dc4c8601ec8cu64);
}

proof fn lemma_known_fnv_empty_path()
    ensures
        fnv1a_of(seq![43u8, 43u8]) == 0x07e47507b4a92e53u64,
{
    let s = seq![43u8, 43u8];
    let none: Seq<u8> = Seq::empty();
    assert(fnv1a_of(none) == 0xcbf29ce484222325u64);
    assert(0xcbf29ce484222325u64 ^ 0x000000000000002bu64 == 0xcbf29ce48422230eu64
        && 0xaf63a64c860190cau64 ^ 0x000000000000002bu64 == 0xaf63a64c860190e1u64) by (bit_vector);
    assert(0xcbf29ce48422230eu64.wrapping_mul(0x00000100000001b3u64) == 0xaf63a64c860190cau64);
    assert(seq![43u8].drop_last() =~= none);
    assert(fnv1a_of(seq![43u8]) == 0xaf63a64c860190cau64);
    assert(0xaf63a64c860190e1u64.wrapping_mul(0x00000100000001b3u64) == 0x07e47507b4a92e53u64);
    assert(seq![43u8, 43u8].drop_last() =~= seq![43u8]);
    assert(fnv1a_of(seq![43u8, 43u8]) == 0x07e47507b4a92e53u64);
}

proof fn lemma_known32_one_byte()
    ensures
        murmur2_32_of(seq![97u8]) == 0x92685f5eu32,
{
    let s = seq![97u8];
    assert(0x00000001u32 ^ 0x00000061u32 == 0x00000060u32
        && 0x6eb797e0u32 >> 13 == 0x000375bcu32
        && 0x6eb797e0u32 ^ 0x000375bcu32 == 0x6eb4e25cu32
        && 0x92697b8cu32 >> 15 == 0x000124d2u32
        && 0x92697b8cu32 ^ 0x000124d2u32 == 0x92685f5eu32) by (bit_vector);
    assert(0x00000060u32.wrapping_mul(0x5bd1e995u32) == 0x6eb797e0u32);
    assert(0x6eb4e25cu32.wrapping_mul(0x5bd1e995u32) == 0x92697b8cu32);
    assert(murmur32_blocks(s, 0) == 0x00000001u32);
    assert(s.subrange(0, 1) =~= seq![97u8]);
}

proof fn lemma_known32_two_bytes()
    ensures
        murmur2_32_of(seq![97u8, 98u8]) == 0x1aa14063u32,
{
    let s = seq![97u8, 98u8];
    assert(0x00000062u32 << 8 == 0x00006200u32
        && 0x00000002u32 ^ 0x00006200u32 == 0x00006202u32
        && 0x00006202u32 ^ 0x00000061u32 == 0x00006263u32
        && 0xdd985e9fu32 >> 13 == 0x0006ecc2u32
        && 0xdd985e9fu32 ^ 0x0006ecc2u32 == 0xdd9eb25du32
        && 0x1aa17521u32 >> 15 == 0x00003542u32
        && 0x1aa17521u32 ^ 0x00003542u32 == 0x1aa14063u32) by (bit_vector);
    assert(0x00006263u32.wrapping_mul(0x5bd1e995u32) == 0xdd985e9fu32);
    assert(0xdd9eb25du32.wrapping_mul(0x5bd1e995u32) == 0x1aa17521u32);
    assert(murmur32_blocks(s, 0) == 0x00000002u32);
    assert(s.subrange(0, 2) =~= seq![97u8, 98u8]);
}

proof fn lemma_known32_block_and_rest()
    ensures
        murmur2_32_of(seq![97u8, 98u8, 99u8, 100u8, 101u8, 102u8, 103u8]) == 0xf9a1cef3u32,
{
    let s = seq![97u8, 98u8, 99u8, 100u8, 101u8, 102u8, 103u8];
    assert(0xae938b75u32 >> 24 == 0x000000aeu32
        && 0xae938b75u32 ^ 0x000000aeu32 == 0xae938bdbu32
        && 0x82bd6313u32 ^ 0xecf5b977u32 == 0x6e48da64u32
        && 0x00000067u32 << 16 == 0x00670000u32
        && 0x6e48da64u32 ^ 0x00670000u32 == 0x6e2fda64u32
        && 0x00000066u32 << 8 == 0x00006600u32
        && 0x6e2fda64u32 ^ 0x00006600u32 == 0x6e2fbc64u32
        && 0x6e2fbc64u32 ^ 0x00000065u32 == 0x6e2fbc01u32
        && 0x6bb65595u32 >> 13 == 0x00035db2u32
        && 0x6bb65595u32 ^ 0x00035db2u32 == 0x6bb50827u32
        && 0xf9a03db3u32 >> 15 == 0x0001f340u32
        && 0xf9a03db3u32 ^ 0x0001f340u32 == 0xf9a1cef3u32) by (bit_vector);
    assert(0x64636261u32.wrapping_mul(0x5bd1e995u32) == 0xae938b75u32);
    assert(0xae938bdbu32.wrapping_mul(0x5bd1e995u32) == 0xecf5b977u32);
    assert(0x00000007u32.wrapping_mul(0x5bd1e995u32) == 0x82bd6313u32);
    assert(0x6e2fbc01u32.wrapping_mul(0x5bd1e995u32) == 0x6bb65595u32);
    assert(0x6bb50827u32.wrapping_mul(0x5bd1e995u32) == 0xf9a03db3u32);
    assert(murmur32_blocks(s, 0) == 0x00000007u32);
    assert(s.subrange(0, 4) =~= seq![97u8, 98u8, 99u8, 100u8]);
    lemma_number_short(seq![97u8, 98u8, 99u8, 100u8]);
    assert(le_value(seq![97u8, 98u8, 99u8, 100u8]) as u32 == 0x64636261u32);
    assert(murmur32_mix(0x64636261u32) == 0xecf5b977u32) by {
        reveal(murmur32_mix);
    }
    assert(murmur32_step(0x00000007u32, 0x64636261u32) == 0x6e48da64u32) by {
        reveal(murmur32_step);
    }
    assert(murmur32_blocks(s, 1) == 0x6e48da64u32);
    assert(s.subrange(4, 7) =~= seq![101u8, 102u8, 103u8]);
}

/// Hashes of some byte strings, with and without a rest behind the last block.
pub proof fn law_known_hashes()
    ensures
        murmur64a_of(seq![97u8]) == 0xf8d232a19e90f23cu64,
        murmur64a_of(seq![109u8, 101u8, 116u8, 97u8, 100u8, 97u8, 116u8, 97u8]) == 0x5e97c9114ce378d5u64,
        murmur64a_of(seq![109u8, 101u8, 116u8, 97u8, 100u8, 97u8, 116u8, 97u8, 47u8, 97u8, 46u8, 111u8, 116u8]) == 0x09ea98058025efa1u64,
        fnv1a_of(seq![97u8]) == 0xaf63dc4c8601ec8cu64,
        fnv1a_of(seq![43u8, 43u8]) == 0x07e47507b4a92e53u64,
        murmur2_32_of(seq![97u8]) == 0x92685f5eu32,
        murmur2_32_of(seq![97u8, 98u8]) == 0x1aa14063u32,
        murmur2_32_of(seq![97u8, 98u8, 99u8, 100u8, 101u8, 102u8, 103u8]) == 0xf9a1cef3u32,
{
    lemma_known64_one_byte();
    lemma_known64_one_block();
    lemma_known64_block_and_rest();
    lemma_known_fnv_one_byte();
    lemma_known_fnv_empty_path();
    lemma_known32_one_byte();
    lemma_known32_two_bytes();
    lemma_known32_block_and_rest();
}

/// A path in small ASCII letters is hashed byte by byte: under FNV-1a with two plus
/// signs behind it.
pub proof fn law_plain_path_is_hashed_byte_by_byte(path: Seq<char>, bytes: Seq<u8>)
    requires
        bytes.len() == path.len(),
        forall|i: int|
            0 <= i < path.len() ==> (#[trigger] path[i]) as u32 == bytes[i] && path[i] < '\u{80}'
                && !('A' <= path[i] <= 'Z'),
        path.len() > 0 ==> path.last() != '/',
    ensures
        path_hash_of(HashMode::Murmur64A, path) == murmur64a_of(bytes),
        path_hash_of(HashMode::Fnv1A, path) == fnv1a_of(bytes.push(43).push(43)),
        bundle_hash_of(path) == fnv1a_of(bytes.push(43).push(43)),
{
    assert(trim_slashes(path) == path);
    assert(lower_all(path) =~= path);
    assert(hashed_spelling(path) == path);
    lemma_ascii_bytes(path, bytes);
    let spelled = path.push('+').push('+');
    lemma_ascii_bytes(spelled, bytes.push(43).push(43));
}

proof fn lemma_is_char(c: char)
    ensures
        '\0' <= c,
        c < '\u{80}' ==> c as u8 == c as u32,
{
}

proof fn lemma_ascii_bytes(t: Seq<char>, bytes: Seq<u8>)
    requires
        bytes.len() == t.len(),
        forall|i: int|
            0 <= i < t.len() ==> (#[trigger] t[i]) as u32 == bytes[i] && t[i] < '\u{80}',
    ensures
        encode_utf8(t) == bytes,
{
    assert forall|i: int| 0 <= i < t.len() implies '\0' <= #[trigger] t[i] <= '\u{7f}' by {
        let c = t[i];
        lemma_is_char(c);
    }
    vstd::utf8::is_ascii_chars_encode_utf8(t);
    assert forall|i: int| 0 <= i < t.len() implies encode_utf8(t)[i] == bytes[i] by {
        let c = t[i];
        lemma_is_char(c);
        assert(c as u8 == encode_utf8(t)[i]);
    }
    assert(encode_utf8(t) =~= bytes);
}

} // verus!
