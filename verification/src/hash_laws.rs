//! What the hashes of paths tell apart: every byte counts.

use crate::bytes::{le_value, lemma_le_inverse, lemma_pow256_values, pow256};
use crate::hashing::{
    fnv1a_of, murmur2_32_of, murmur32_blocks, murmur32_mix, murmur32_step, murmur32_tail,
    murmur64_blocks, murmur64_finish, murmur64_mix, murmur64_step, murmur64a_of,
};
use vstd::arithmetic::div_mod::{lemma_mul_mod_noop_left, lemma_mul_mod_noop_right};
use vstd::prelude::*;

verus! {

/// Whether two byte strings are as long as each other, and differ in the bytes from
/// `from` up to `to` and in no others.
pub open spec fn differ_only_within(a: Seq<u8>, b: Seq<u8>, from: int, to: int) -> bool {
    &&& a.len() == b.len()
    &&& a != b
    &&& forall|i: int| 0 <= i < a.len() && !(from <= i < to) ==> #[trigger] a[i] == b[i]
}

/// A multiplication by a number that has an inverse can be undone.
proof fn lemma_times_undone(a: int, m: int, inverse: int, n: int)
    requires
        0 <= a < n,
        n > 1,
        (m * inverse) % n == 1,
    ensures
        (((a * m) % n) * inverse) % n == a,
{
    lemma_mul_mod_noop_left(a * m, inverse, n);
    assert((a * m) * inverse == a * (m * inverse)) by (nonlinear_arith);
    lemma_mul_mod_noop_right(a, m * inverse, n);
    assert(a * 1 == a);
    vstd::arithmetic::div_mod::lemma_small_mod(a as nat, n as nat);
}

/// Numbers that differ have different products with the factor of the 64-bit hash.
proof fn lemma_times64(a: u64, b: u64)
    requires
        a != b,
    ensures
        a.wrapping_mul(0xC6A4A7935BD1E995) != b.wrapping_mul(0xC6A4A7935BD1E995),
{
    let n = 0x1_0000_0000_0000_0000int;
    lemma_times_undone(a as int, 0xC6A4A7935BD1E995, 0x5f7a0ea7e59b19bd, n);
    lemma_times_undone(b as int, 0xC6A4A7935BD1E995, 0x5f7a0ea7e59b19bd, n);
}

proof fn lemma_times32(a: u32, b: u32)
    requires
        a != b,
    ensures
        a.wrapping_mul(0x5bd1e995) != b.wrapping_mul(0x5bd1e995),
{
    let n = 0x1_0000_0000int;
    lemma_times_undone(a as int, 0x5bd1e995, 0xe59b19bd, n);
    lemma_times_undone(b as int, 0x5bd1e995, 0xe59b19bd, n);
}

proof fn lemma_times_fnv(a: u64, b: u64)
    requires
        a != b,
    ensures
        a.wrapping_mul(0x100000001b3) != b.wrapping_mul(0x100000001b3),
{
    let n = 0x1_0000_0000_0000_0000int;
    lemma_times_undone(a as int, 0x100000001b3, 0xce965057aff6957b, n);
    lemma_times_undone(b as int, 0x100000001b3, 0xce965057aff6957b, n);
}

/// Bits that are mixed into others, or shifted and mixed in, can be told again.
proof fn lemma_mixed64(a: u64, b: u64, h: u64)
    requires
        a != b,
    ensures
        h ^ a != h ^ b,
        a ^ h != b ^ h,
        a ^ (a >> 47) != b ^ (b >> 47),
{
    assert(a != b ==> h ^ a != h ^ b && a ^ h != b ^ h) by (bit_vector);
    assert(a != b ==> a ^ (a >> 47) != b ^ (b >> 47)) by (bit_vector);
}

proof fn lemma_mixed32(a: u32, b: u32, h: u32)
    requires
        a != b,
    ensures
        h ^ a != h ^ b,
        a ^ h != b ^ h,
        a ^ (a >> 24) != b ^ (b >> 24),
        a ^ (a >> 13) != b ^ (b >> 13),
        a ^ (a >> 15) != b ^ (b >> 15),
{
    assert(a != b ==> h ^ a != h ^ b && a ^ h != b ^ h) by (bit_vector);
    assert(a != b ==> a ^ (a >> 24) != b ^ (b >> 24) && a ^ (a >> 13) != b ^ (b >> 13) && a ^ (a
        >> 15) != b ^ (b >> 15)) by (bit_vector);
}

proof fn lemma_step64(h: u64, g: u64, k: u64, l: u64)
    ensures
        h != g ==> murmur64_step(h, k) != murmur64_step(g, k),
        k != l ==> murmur64_step(h, k) != murmur64_step(h, l),
{
    reveal(murmur64_step);
    reveal(murmur64_mix);
    if h != g {
        let m = murmur64_mix(k);
        lemma_mixed64(h, g, m);
        lemma_times64(h ^ m, g ^ m);
    }
    if k != l {
        lemma_times64(k, l);
        let x = k.wrapping_mul(0xC6A4A7935BD1E995);
        let y = l.wrapping_mul(0xC6A4A7935BD1E995);
        lemma_mixed64(x, y, h);
        lemma_times64(x ^ (x >> 47), y ^ (y >> 47));
        lemma_mixed64(murmur64_mix(k), murmur64_mix(l), h);
        lemma_times64(h ^ murmur64_mix(k), h ^ murmur64_mix(l));
    }
}

proof fn lemma_step32(h: u32, g: u32, k: u32, l: u32)
    ensures
        h != g ==> murmur32_step(h, k) != murmur32_step(g, k),
        k != l ==> murmur32_step(h, k) != murmur32_step(h, l),
{
    reveal(murmur32_step);
    reveal(murmur32_mix);
    if h != g {
        lemma_times32(h, g);
        lemma_mixed32(h.wrapping_mul(0x5bd1e995), g.wrapping_mul(0x5bd1e995), murmur32_mix(k));
    }
    if k != l {
        lemma_times32(k, l);
        let x = k.wrapping_mul(0x5bd1e995);
        let y = l.wrapping_mul(0x5bd1e995);
        lemma_mixed32(x, y, h);
        lemma_times32(x ^ (x >> 24), y ^ (y >> 24));
        lemma_mixed32(murmur32_mix(k), murmur32_mix(l), h.wrapping_mul(0x5bd1e995));
    }
}

proof fn lemma_finish64(h: u64, g: u64)
    requires
        h != g,
    ensures
        murmur64_finish(h) != murmur64_finish(g),
{
    lemma_mixed64(h, g, 0);
    let a = h ^ (h >> 47);
    let b = g ^ (g >> 47);
    lemma_times64(a, b);
    lemma_mixed64(a.wrapping_mul(0xC6A4A7935BD1E995), b.wrapping_mul(0xC6A4A7935BD1E995), 0);
}

/// Bytes that differ spell different numbers.
proof fn lemma_numbers_differ(a: Seq<u8>, b: Seq<u8>)
    requires
        a.len() == b.len(),
        a.len() <= 8,
        a != b,
    ensures
        le_value(a) != le_value(b),
        le_value(a) <= u64::MAX,
        le_value(b) <= u64::MAX,
        a.len() <= 4 ==> le_value(a) <= u32::MAX && le_value(b) <= u32::MAX,
{
    lemma_le_inverse(a);
    lemma_le_inverse(b);
    lemma_pow256_values();
    reveal_with_fuel(pow256, 9);
}

/// The states after the same number of blocks differ from the block on that does.
proof fn lemma_blocks64(a: Seq<u8>, b: Seq<u8>, n: nat, k: nat)
    requires
        differ_only_within(a, b, 8 * n as int, (8 * n + 8) as int),
        8 * k <= a.len(),
    ensures
        k <= n ==> murmur64_blocks(a, k) == murmur64_blocks(b, k),
        k > n ==> murmur64_blocks(a, k) != murmur64_blocks(b, k),
    decreases k,
{
    if k > 0 {
        let j = (k - 1) as nat;
        lemma_blocks64(a, b, n, j);
        let x = a.subrange(8 * j as int, 8 * k as int);
        let y = b.subrange(8 * j as int, 8 * k as int);
        if j == n {
            if x == y {
                assert(a =~= b) by {
                    assert forall|i: int| 0 <= i < a.len() implies a[i] == b[i] by {
                        if 8 * j <= i < 8 * k {
                            assert(x[i - 8 * j] == a[i] && y[i - 8 * j] == b[i]);
                        }
                    }
                }
            }
            lemma_numbers_differ(x, y);
        } else {
            assert(x =~= y);
        }
        lemma_step64(
            murmur64_blocks(a, j),
            murmur64_blocks(b, j),
            le_value(x) as u64,
            le_value(y) as u64,
        );
    }
}

/// Byte strings of the same length that differ in one block of eight, or in the bytes
/// behind the last whole block, have different 64-bit hashes: every byte counts.
pub proof fn law_murmur64_tells_bytes_apart(a: Seq<u8>, b: Seq<u8>, n: nat)
    requires
        differ_only_within(a, b, 8 * n as int, (8 * n + 8) as int),
    ensures
        murmur64a_of(a) != murmur64a_of(b),
{
    let len = a.len() as int;
    let blocks = a.len() / 8;
    assert(a.len() > 0) by {
        if a.len() == 0 {
            assert(a =~= b);
        }
    }
    lemma_blocks64(a, b, n, blocks);
    let h = murmur64_blocks(a, blocks);
    let g = murmur64_blocks(b, blocks);
    let x = a.subrange(8 * blocks as int, len);
    let y = b.subrange(8 * blocks as int, len);
    if n < blocks {
        assert(x =~= y);
        let k = le_value(x) as u64;
        lemma_mixed64(h, g, k);
        lemma_times64(h ^ k, g ^ k);
        lemma_finish64((h ^ k).wrapping_mul(0xC6A4A7935BD1E995), (g ^ k).wrapping_mul(
            0xC6A4A7935BD1E995,
        ));
        lemma_finish64(h, g);
    } else {
        if x == y {
            assert(a =~= b) by {
                assert forall|i: int| 0 <= i < a.len() implies a[i] == b[i] by {
                    if 8 * blocks <= i {
                        assert(x[i - 8 * blocks] == a[i] && y[i - 8 * blocks] == b[i]);
                    }
                }
            }
        }
        lemma_numbers_differ(x, y);
        let k = le_value(x) as u64;
        let l = le_value(y) as u64;
        lemma_mixed64(k, l, h);
        lemma_times64(h ^ k, h ^ l);
        lemma_finish64((h ^ k).wrapping_mul(0xC6A4A7935BD1E995), (h ^ l).wrapping_mul(
            0xC6A4A7935BD1E995,
        ));
    }
}

/// The states after the same number of blocks differ from the block on that does.
proof fn lemma_blocks32(a: Seq<u8>, b: Seq<u8>, n: nat, k: nat)
    requires
        differ_only_within(a, b, 4 * n as int, (4 * n + 4) as int),
        4 * k <= a.len(),
    ensures
        k <= n ==> murmur32_blocks(a, k) == murmur32_blocks(b, k),
        k > n ==> murmur32_blocks(a, k) != murmur32_blocks(b, k),
    decreases k,
{
    if k > 0 {
        let j = (k - 1) as nat;
        lemma_blocks32(a, b, n, j);
        let x = a.subrange(4 * j as int, 4 * k as int);
        let y = b.subrange(4 * j as int, 4 * k as int);
        if j == n {
            if x == y {
                assert(a =~= b) by {
                    assert forall|i: int| 0 <= i < a.len() implies a[i] == b[i] by {
                        if 4 * j <= i < 4 * k {
                            assert(x[i - 4 * j] == a[i] && y[i - 4 * j] == b[i]);
                        }
                    }
                }
            }
            lemma_numbers_differ(x, y);
        } else {
            assert(x =~= y);
        }
        lemma_step32(
            murmur32_blocks(a, j),
            murmur32_blocks(b, j),
            le_value(x) as u32,
            le_value(y) as u32,
        );
    }
}

proof fn lemma_tail32(h: u32, g: u32, x: Seq<u8>, y: Seq<u8>)
    requires
        x.len() == y.len() < 4,
    ensures
        h != g ==> murmur32_tail(h, x) != murmur32_tail(g, x),
        x != y ==> murmur32_tail(h, x) != murmur32_tail(h, y),
{
    if x.len() > 0 {
        let p = x[0] as u32;
        let q = if x.len() > 1 {
            x[1] as u32
        } else {
            0
        };
        let r = if x.len() > 2 {
            x[2] as u32
        } else {
            0
        };
        let s = y[0] as u32;
        let t = if x.len() > 1 {
            y[1] as u32
        } else {
            0
        };
        let u = if x.len() > 2 {
            y[2] as u32
        } else {
            0
        };
        if h != g {
            assert(h != g ==> h ^ (r << 16) ^ (q << 8) ^ p != g ^ (r << 16) ^ (q << 8) ^ p && h ^ (q
                << 8) ^ p != g ^ (q << 8) ^ p && h ^ p != g ^ p) by (bit_vector);
            lemma_times32(h ^ (r << 16) ^ (q << 8) ^ p, g ^ (r << 16) ^ (q << 8) ^ p);
            lemma_times32(h ^ (q << 8) ^ p, g ^ (q << 8) ^ p);
            lemma_times32(h ^ p, g ^ p);
        }
        if x != y {
            if p == s && q == t && r == u {
                assert(x =~= y);
            }
            assert(p < 256 && q < 256 && r < 256 && s < 256 && t < 256 && u < 256 && !(p == s && q
                == t && r == u) ==> h ^ (r << 16) ^ (q << 8) ^ p != h ^ (u << 16) ^ (t << 8) ^ s)
                by (bit_vector);
            assert(p < 256 && q < 256 && s < 256 && t < 256 && !(p == s && q == t) ==> h ^ (q << 8)
                ^ p != h ^ (t << 8) ^ s) by (bit_vector);
            assert(p != s ==> h ^ p != h ^ s) by (bit_vector);
            if x.len() == 3 {
                lemma_times32(h ^ (r << 16) ^ (q << 8) ^ p, h ^ (u << 16) ^ (t << 8) ^ s);
            } else if x.len() == 2 {
                lemma_times32(h ^ (q << 8) ^ p, h ^ (t << 8) ^ s);
            } else {
                lemma_times32(h ^ p, h ^ s);
            }
        }
    } else {
        assert(x =~= y);
    }
}

/// Byte strings of the same length that differ in one block of four, or in the bytes
/// behind the last whole block, have different 32-bit hashes: every byte counts.
pub proof fn law_murmur32_tells_bytes_apart(a: Seq<u8>, b: Seq<u8>, n: nat)
    requires
        differ_only_within(a, b, 4 * n as int, (4 * n + 4) as int),
    ensures
        murmur2_32_of(a) != murmur2_32_of(b),
{
    let len = a.len() as int;
    let blocks = a.len() / 4;
    lemma_blocks32(a, b, n, blocks);
    let h = murmur32_blocks(a, blocks);
    let g = murmur32_blocks(b, blocks);
    let x = a.subrange(4 * blocks as int, len);
    let y = b.subrange(4 * blocks as int, len);
    if n < blocks {
        assert(x =~= y);
    } else {
        if x == y {
            assert(a =~= b) by {
                assert forall|i: int| 0 <= i < a.len() implies a[i] == b[i] by {
                    if 4 * blocks <= i {
                        assert(x[i - 4 * blocks] == a[i] && y[i - 4 * blocks] == b[i]);
                    }
                }
            }
        }
    }
    lemma_tail32(h, g, x, y);
    let c = murmur32_tail(h, x);
    let d = murmur32_tail(g, y);
    lemma_mixed32(c, d, 0);
    let e = c ^ (c >> 13);
    let f = d ^ (d >> 13);
    lemma_times32(e, f);
    lemma_mixed32(e.wrapping_mul(0x5bd1e995), f.wrapping_mul(0x5bd1e995), 0);
}

/// What follows does not make different FNV-1a hashes the same.
proof fn lemma_fnv_goes_on(a: Seq<u8>, b: Seq<u8>, rest: Seq<u8>)
    requires
        fnv1a_of(a) != fnv1a_of(b),
    ensures
        fnv1a_of(a + rest) != fnv1a_of(b + rest),
    decreases rest.len(),
{
    if rest.len() == 0 {
        assert(a + rest =~= a);
        assert(b + rest =~= b);
    } else {
        let front = rest.drop_last();
        lemma_fnv_goes_on(a, b, front);
        assert((a + rest).drop_last() =~= a + front);
        assert((b + rest).drop_last() =~= b + front);
        let k = rest.last() as u64;
        lemma_mixed64(fnv1a_of(a + front), fnv1a_of(b + front), k);
        lemma_times_fnv(fnv1a_of(a + front) ^ k, fnv1a_of(b + front) ^ k);
    }
}

/// Byte strings that differ in one byte have different FNV-1a hashes: every byte
/// counts.
pub proof fn law_fnv1a_tells_bytes_apart(front: Seq<u8>, x: u8, y: u8, rest: Seq<u8>)
    requires
        x != y,
    ensures
        fnv1a_of(front.push(x) + rest) != fnv1a_of(front.push(y) + rest),
{
    assert(front.push(x).drop_last() =~= front);
    assert(front.push(y).drop_last() =~= front);
    let h = fnv1a_of(front);
    lemma_mixed64(x as u64, y as u64, h);
    lemma_times_fnv(h ^ (x as u64), h ^ (y as u64));
    lemma_fnv_goes_on(front.push(x), front.push(y), rest);
}

} // verus!
