//! Little-endian integers in byte sequences.

use byteorder::{ByteOrder, LittleEndian, WriteBytesExt};
use vstd::prelude::*;
use vstd::slice::slice_subrange;

verus! {

/// `256` to the power `n`.
pub open spec fn pow256(n: nat) -> nat
    decreases n,
{
    if n == 0 {
        1
    } else {
        256 * pow256((n - 1) as nat)
    }
}

/// The number that `s` spells in little-endian order.
pub open spec fn le_value(s: Seq<u8>) -> nat
    decreases s.len(),
{
    if s.len() == 0 {
        0
    } else {
        s[0] as nat + 256 * le_value(s.subrange(1, s.len() as int))
    }
}

/// The `n` lowest bytes of `v` in little-endian order.
pub open spec fn le_bytes(v: nat, n: nat) -> Seq<u8>
    decreases n,
{
    if n == 0 {
        Seq::empty()
    } else {
        seq![(v % 256) as u8] + le_bytes(v / 256, (n - 1) as nat)
    }
}

pub proof fn lemma_pow256_values()
    ensures
        pow256(0) == 1,
        pow256(1) == 0x100,
        pow256(2) == 0x1_0000,
        pow256(4) == 0x1_0000_0000,
        pow256(8) == 0x1_0000_0000_0000_0000,
        pow256(16) == 0x1_0000_0000_0000_0000_0000_0000_0000_0000,
{
    reveal_with_fuel(pow256, 17);
}

pub proof fn lemma_le_bytes_len(v: nat, n: nat)
    ensures
        le_bytes(v, n).len() == n,
    decreases n,
{
    if n > 0 {
        lemma_le_bytes_len(v / 256, (n - 1) as nat);
    }
}

/// Reading back the bytes of a number gives the number.
pub proof fn lemma_le_round_trip(v: nat, n: nat)
    requires
        v < pow256(n),
    ensures
        le_bytes(v, n).len() == n,
        le_value(le_bytes(v, n)) == v,
    decreases n,
{
    lemma_le_bytes_len(v, n);
    if n > 0 {
        let rest = le_bytes(v / 256, (n - 1) as nat);
        assert(v / 256 < pow256((n - 1) as nat));
        lemma_le_round_trip(v / 256, (n - 1) as nat);
        assert(le_bytes(v, n).subrange(1, n as int) =~= rest);
    }
}

/// Writing the number that some bytes spell gives the bytes.
pub proof fn lemma_le_inverse(s: Seq<u8>)
    ensures
        le_value(s) < pow256(s.len()),
        le_bytes(le_value(s), s.len()) == s,
    decreases s.len(),
{
    if s.len() > 0 {
        let rest = s.subrange(1, s.len() as int);
        lemma_le_inverse(rest);
        let v = le_value(s);
        assert(v % 256 == s[0] as nat);
        assert(v / 256 == le_value(rest));
        assert(le_bytes(v, s.len()) =~= s);
    }
}

pub proof fn lemma_le_value_bounds(s: Seq<u8>)
    ensures
        s.len() == 2 ==> le_value(s) <= u16::MAX,
        s.len() == 4 ==> le_value(s) <= u32::MAX,
        s.len() == 8 ==> le_value(s) <= u64::MAX,
        s.len() == 16 ==> le_value(s) <= u128::MAX,
{
    lemma_le_inverse(s);
    lemma_pow256_values();
}

/// The number in the `n` bytes of `s` that start at `pos`.
pub open spec fn le_at(s: Seq<u8>, pos: int, n: int) -> nat {
    le_value(s.subrange(pos, pos + n))
}

pub open spec fn u32_at(s: Seq<u8>, pos: int) -> u32 {
    le_at(s, pos, 4) as u32
}

pub open spec fn u64_at(s: Seq<u8>, pos: int) -> u64 {
    le_at(s, pos, 8) as u64
}

pub open spec fn u32_bytes(v: u32) -> Seq<u8> {
    le_bytes(v as nat, 4)
}

pub open spec fn u64_bytes(v: u64) -> Seq<u8> {
    le_bytes(v as nat, 8)
}

pub open spec fn u128_bytes(v: u128) -> Seq<u8> {
    le_bytes(v as nat, 16)
}

pub open spec fn u16_bytes(v: u16) -> Seq<u8> {
    le_bytes(v as nat, 2)
}

/// What the integer writers leave can be read back.
pub proof fn lemma_int_bytes()
    ensures
        forall|v: u16| #[trigger] u16_bytes(v).len() == 2 && le_value(u16_bytes(v)) == v,
        forall|v: u32| #[trigger] u32_bytes(v).len() == 4 && le_value(u32_bytes(v)) == v,
        forall|v: u64| #[trigger] u64_bytes(v).len() == 8 && le_value(u64_bytes(v)) == v,
        forall|v: u128| #[trigger] u128_bytes(v).len() == 16 && le_value(u128_bytes(v)) == v,
{
    lemma_pow256_values();
    assert forall|v: u16| #[trigger] u16_bytes(v).len() == 2 && le_value(u16_bytes(v)) == v by {
        lemma_le_round_trip(v as nat, 2);
    }
    assert forall|v: u32| #[trigger] u32_bytes(v).len() == 4 && le_value(u32_bytes(v)) == v by {
        lemma_le_round_trip(v as nat, 4);
    }
    assert forall|v: u64| #[trigger] u64_bytes(v).len() == 8 && le_value(u64_bytes(v)) == v by {
        lemma_le_round_trip(v as nat, 8);
    }
    assert forall|v: u128| #[trigger] u128_bytes(v).len() == 16 && le_value(u128_bytes(v)) == v by {
        lemma_le_round_trip(v as nat, 16);
    }
}

/// The contents of some byte vectors.
pub open spec fn byte_seqs(v: Seq<Vec<u8>>) -> Seq<Seq<u8>> {
    v.map_values(|b: Vec<u8>| b@)
}

/// The first `n` of some byte sequences, one after the other.
pub open spec fn joined(parts: Seq<Seq<u8>>, n: nat) -> Seq<u8>
    decreases n,
{
    if n == 0 {
        Seq::empty()
    } else {
        joined(parts, (n - 1) as nat) + parts[n - 1]
    }
}

/// `byteorder::LittleEndian::read_u16`: the first two bytes, lowest first.
#[verifier::external_body]
fn le_read_u16(buf: &[u8]) -> (v: u16)
    requires
        buf@.len() >= 2,
    ensures
        v as nat == le_value(buf@.subrange(0, 2)),
{
    LittleEndian::read_u16(buf)
}

/// `byteorder::LittleEndian::read_u32`: the first four bytes, lowest first.
#[verifier::external_body]
fn le_read_u32(buf: &[u8]) -> (v: u32)
    requires
        buf@.len() >= 4,
    ensures
        v as nat == le_value(buf@.subrange(0, 4)),
{
    LittleEndian::read_u32(buf)
}

/// `byteorder::LittleEndian::read_u64`: the first eight bytes, lowest first.
#[verifier::external_body]
fn le_read_u64(buf: &[u8]) -> (v: u64)
    requires
        buf@.len() >= 8,
    ensures
        v as nat == le_value(buf@.subrange(0, 8)),
{
    LittleEndian::read_u64(buf)
}

/// `byteorder::LittleEndian::read_u128`: the first sixteen bytes, lowest first.
#[verifier::external_body]
fn le_read_u128(buf: &[u8]) -> (v: u128)
    requires
        buf@.len() >= 16,
    ensures
        v as nat == le_value(buf@.subrange(0, 16)),
{
    LittleEndian::read_u128(buf)
}

/// `byteorder::WriteBytesExt::write_u16` on a vector: appends the two bytes of
/// `v`, lowest first. Writing to a vector never fails.
#[verifier::external_body]
pub(crate) fn push_u16(out: &mut Vec<u8>, v: u16)
    ensures
        final(out)@ == old(out)@ + u16_bytes(v),
{
    out.write_u16::<LittleEndian>(v).expect("write to a vector");
}

/// `byteorder::WriteBytesExt::write_u32` on a vector: appends the four bytes of
/// `v`, lowest first. Writing to a vector never fails.
#[verifier::external_body]
pub(crate) fn push_u32(out: &mut Vec<u8>, v: u32)
    ensures
        final(out)@ == old(out)@ + u32_bytes(v),
{
    out.write_u32::<LittleEndian>(v).expect("write to a vector");
}

/// `byteorder::WriteBytesExt::write_u64` on a vector: appends the eight bytes of
/// `v`, lowest first. Writing to a vector never fails.
#[verifier::external_body]
pub(crate) fn push_u64(out: &mut Vec<u8>, v: u64)
    ensures
        final(out)@ == old(out)@ + u64_bytes(v),
{
    out.write_u64::<LittleEndian>(v).expect("write to a vector");
}

/// `byteorder::WriteBytesExt::write_u128` on a vector: appends the sixteen bytes
/// of `v`, lowest first. Writing to a vector never fails.
#[verifier::external_body]
pub(crate) fn push_u128(out: &mut Vec<u8>, v: u128)
    ensures
        final(out)@ == old(out)@ + u128_bytes(v),
{
    out.write_u128::<LittleEndian>(v).expect("write to a vector");
}

/// Reads the two bytes at `pos`, if they are there.
pub fn read_u16_at(s: &[u8], pos: usize) -> (v: Option<u16>)
    ensures
        v is Some <==> pos + 2 <= s@.len(),
        v is Some ==> v->0 as nat == le_at(s@, pos as int, 2),
{
    if pos > s.len() || s.len() - pos < 2 {
        return None;
    }
    let tail = slice_subrange(s, pos, pos + 2);
    assert(tail@.subrange(0, 2) =~= s@.subrange(pos as int, pos + 2));
    Some(le_read_u16(tail))
}

/// Reads the four bytes at `pos`, if they are there.
pub fn read_u32_at(s: &[u8], pos: usize) -> (v: Option<u32>)
    ensures
        v is Some <==> pos + 4 <= s@.len(),
        v is Some ==> v->0 == u32_at(s@, pos as int) && v->0 as nat == le_at(s@, pos as int, 4),
{
    if pos > s.len() || s.len() - pos < 4 {
        return None;
    }
    let tail = slice_subrange(s, pos, pos + 4);
    assert(tail@.subrange(0, 4) =~= s@.subrange(pos as int, pos + 4));
    Some(le_read_u32(tail))
}

/// Reads the eight bytes at `pos`, if they are there.
pub fn read_u64_at(s: &[u8], pos: usize) -> (v: Option<u64>)
    ensures
        v is Some <==> pos + 8 <= s@.len(),
        v is Some ==> v->0 == u64_at(s@, pos as int) && v->0 as nat == le_at(s@, pos as int, 8),
{
    if pos > s.len() || s.len() - pos < 8 {
        return None;
    }
    let tail = slice_subrange(s, pos, pos + 8);
    assert(tail@.subrange(0, 8) =~= s@.subrange(pos as int, pos + 8));
    Some(le_read_u64(tail))
}

/// Reads the sixteen bytes at `pos`, if they are there.
pub fn read_u128_at(s: &[u8], pos: usize) -> (v: Option<u128>)
    ensures
        v is Some <==> pos + 16 <= s@.len(),
        v is Some ==> v->0 as nat == le_at(s@, pos as int, 16),
{
    if pos > s.len() || s.len() - pos < 16 {
        return None;
    }
    let tail = slice_subrange(s, pos, pos + 16);
    assert(tail@.subrange(0, 16) =~= s@.subrange(pos as int, pos + 16));
    Some(le_read_u128(tail))
}

/// `s` with the bytes from `pos` on replaced by `b`.
pub open spec fn patched(s: Seq<u8>, pos: int, b: Seq<u8>) -> Seq<u8> {
    s.subrange(0, pos) + b + s.subrange(pos + b.len(), s.len() as int)
}

/// Overwrites the bytes of `out` from `pos` on by `b`.
pub fn overwrite(out: &mut Vec<u8>, pos: usize, b: &[u8])
    requires
        pos + b@.len() <= old(out)@.len(),
    ensures
        final(out)@ == patched(old(out)@, pos as int, b@),
{
    let ghost start = out@;
    let total: usize = out.len();
    let n: usize = b.len();
    let mut i: usize = 0;
    while i < n
        invariant
            i <= n == b@.len(),
            total == start.len(),
            pos + n <= start.len() == out@.len(),
            forall|k: int| 0 <= k < out@.len() ==> #[trigger] out@[k] == (if pos <= k < pos + i {
                b@[k - pos]
            } else {
                start[k]
            }),
        decreases n - i,
    {
        out.set(pos + i, b[i]);
        i = i + 1;
    }
    assert(out@ =~= patched(start, pos as int, b@));
}

/// Appends the bytes of `b`.
pub fn push_all(out: &mut Vec<u8>, b: &[u8])
    ensures
        final(out)@ == old(out)@ + b@,
{
    let ghost start = out@;
    out.extend_from_slice(b);
    assert(out@ =~= start + b@);
}

/// Whether two byte sequences are the same.
pub fn same_bytes(a: &[u8], b: &[u8]) -> (r: bool)
    ensures
        r == (a@ == b@),
{
    if a.len() != b.len() {
        return false;
    }
    let n: usize = a.len();
    let mut i: usize = 0;
    while i < n
        invariant
            i <= n == a@.len() == b@.len(),
            forall|k: int| 0 <= k < i ==> a@[k] == b@[k],
        decreases n - i,
    {
        if a[i] != b[i] {
            return false;
        }
        i = i + 1;
    }
    assert(a@ =~= b@);
    true
}

/// A copy of the bytes of `s` from `start` up to `end`.
pub fn copy_range(s: &[u8], start: usize, end: usize) -> (r: Vec<u8>)
    requires
        start <= end <= s@.len(),
    ensures
        r@ == s@.subrange(start as int, end as int),
{
    vstd::slice::slice_to_vec(slice_subrange(s, start, end))
}

/// Whether the bytes `b` stand in `s` at `pos`.
pub open spec fn holds_at(s: Seq<u8>, pos: int, b: Seq<u8>) -> bool {
    0 <= pos && pos + b.len() <= s.len() && s.subrange(pos, pos + b.len()) == b
}

/// What stands in one piece stands in parts.
pub proof fn lemma_holds_split(s: Seq<u8>, pos: int, a: Seq<u8>, b: Seq<u8>)
    requires
        holds_at(s, pos, a + b),
    ensures
        holds_at(s, pos, a),
        holds_at(s, pos + a.len(), b),
{
    let whole = s.subrange(pos, pos + (a + b).len());
    assert(s.subrange(pos, pos + a.len()) =~= whole.subrange(0, a.len() as int));
    assert((a + b).subrange(0, a.len() as int) =~= a);
    assert(s.subrange(pos + a.len(), pos + a.len() + b.len()) =~= whole.subrange(
        a.len() as int,
        (a + b).len() as int,
    ));
    assert((a + b).subrange(a.len() as int, (a + b).len() as int) =~= b);
}

pub proof fn lemma_holds_u16(s: Seq<u8>, pos: int, v: u16)
    requires
        holds_at(s, pos, u16_bytes(v)),
    ensures
        u16_bytes(v).len() == 2,
        pos + 2 <= s.len(),
        le_at(s, pos, 2) == v,
{
    lemma_int_bytes();
}

pub proof fn lemma_holds_u32(s: Seq<u8>, pos: int, v: u32)
    requires
        holds_at(s, pos, u32_bytes(v)),
    ensures
        u32_bytes(v).len() == 4,
        pos + 4 <= s.len(),
        u32_at(s, pos) == v,
{
    lemma_int_bytes();
}

pub proof fn lemma_holds_u64(s: Seq<u8>, pos: int, v: u64)
    requires
        holds_at(s, pos, u64_bytes(v)),
    ensures
        u64_bytes(v).len() == 8,
        pos + 8 <= s.len(),
        u64_at(s, pos) == v,
{
    lemma_int_bytes();
}

pub proof fn lemma_holds_u128(s: Seq<u8>, pos: int, v: u128)
    requires
        holds_at(s, pos, u128_bytes(v)),
    ensures
        u128_bytes(v).len() == 16,
        pos + 16 <= s.len(),
        le_at(s, pos, 16) == v,
{
    lemma_int_bytes();
}

/// A block: its length, then its bytes.
pub open spec fn block_bytes(b: Seq<u8>) -> Seq<u8> {
    u64_bytes(b.len() as u64) + b
}

/// The block at `pos` and where it ends, if all of it is there.
pub open spec fn block_at(s: Seq<u8>, pos: int) -> Option<(Seq<u8>, int)> {
    if pos + 8 > s.len() || pos + 8 + u64_at(s, pos) > s.len() {
        None
    } else {
        let end = pos + 8 + u64_at(s, pos);
        Some((s.subrange(pos + 8, end), end))
    }
}

pub proof fn lemma_block_read(s: Seq<u8>, pos: int, b: Seq<u8>)
    requires
        holds_at(s, pos, block_bytes(b)),
        b.len() <= u64::MAX,
    ensures
        block_bytes(b).len() == 8 + b.len(),
        block_at(s, pos) == Some((b, pos + 8 + b.len())),
{
    lemma_holds_split(s, pos, u64_bytes(b.len() as u64), b);
    lemma_holds_u64(s, pos, b.len() as u64);
}

/// Reads a block.
pub fn read_block(s: &[u8], pos: usize) -> (r: Option<(Vec<u8>, usize)>)
    requires
        pos <= s@.len(),
    ensures
        match r {
            Some((b, end)) => block_at(s@, pos as int) == Some((b@, end as int)) && pos <= end
                <= s@.len(),
            None => block_at(s@, pos as int) is None,
        },
{
    let total: usize = s.len();
    let len: u64 = match read_u64_at(s, pos) {
        Some(v) => v,
        None => return None,
    };
    if len > (total - pos - 8) as u64 {
        return None;
    }
    let end: usize = pos + 8 + len as usize;
    Some((copy_range(s, pos + 8, end), end))
}

/// Appends a block.
pub fn push_block(out: &mut Vec<u8>, b: &[u8])
    ensures
        final(out)@ == old(out)@ + block_bytes(b@),
{
    let ghost start = out@;
    push_u64(out, b.len() as u64);
    push_all(out, b);
    assert(out@ =~= start + block_bytes(b@));
}

} // verus!
