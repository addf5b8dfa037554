//! Compressed bundles: the head, the chunk table and the chunks.
//!
//! A chunk is compressed and decompressed by an outside codec. The functions
//! here find the chunks, say how long each has to come out, and put together
//! what the codec wrote.

use crate::bytes::{
    byte_seqs, joined, lemma_int_bytes, push_all, push_u32, push_u64, read_u32_at, read_u64_at,
    u32_at, u32_bytes, u64_at, u64_bytes,
};
use vstd::prelude::*;

verus! {

/// Uncompressed size of every chunk of a bundle but the last.
pub const BUNDLE_CHUNK_SIZE: usize = 0x40000;

/// Size of the head behind the three leading sizes, without the chunk table.
pub const BUNDLE_FIXED_HEAD_SIZE_AFTER_PREFIX: usize = 48;

/// The codec's number for the Mermaid compressor.
pub const OODLE_MERMAID_COMPRESSOR: u32 = 9;

/// Why a bundle cannot be read or written.
#[derive(Debug, Clone, Copy, PartialEq, Eq, Structural)]
pub enum BundleError {
    /// The head or the chunk table ends early.
    Truncated,
    /// The head size is smaller than the chunk table.
    HeadTooSmall,
    /// There are chunks, and their size is zero.
    ZeroChunkSize,
    /// A chunk reaches beyond the end of the bundle.
    ChunkExceedsSource,
    /// The codec did not write the expected number of bytes for a chunk.
    ChunkSize,
    /// The chunks together are not as long as the head says.
    SizeMismatch,
    /// A requested span reaches beyond the end of the uncompressed bundle.
    SpanExceedsBundle,
    /// A requested span lies in chunks that the chunk table does not have.
    SpanMissing,
    /// A size does not fit into its field.
    TooLarge,
}

/// The part of a bundle's head that reading it takes.
pub struct BundleHead {
    pub uncompressed_size: u64,
    pub chunk_unpacked_size: u32,
    pub chunk_sizes: Vec<u32>,
    pub data_offset: u64,
}

/// What a `BundleHead` says.
#[verifier::ext_equal]
pub struct HeadView {
    pub uncompressed_size: nat,
    pub chunk_unpacked_size: nat,
    pub chunk_sizes: Seq<u32>,
    pub data_offset: nat,
}

impl View for BundleHead {
    type V = HeadView;

    open spec fn view(&self) -> HeadView {
        HeadView {
            uncompressed_size: self.uncompressed_size as nat,
            chunk_unpacked_size: self.chunk_unpacked_size as nat,
            chunk_sizes: self.chunk_sizes@,
            data_offset: self.data_offset as nat,
        }
    }
}

impl HeadView {
    /// Uncompressed size of chunk `i`: full but for the last.
    pub open spec fn dst_size(self, i: int) -> int {
        let left = self.uncompressed_size - i * self.chunk_unpacked_size;
        if left <= 0 {
            0
        } else if left < self.chunk_unpacked_size {
            left
        } else {
            self.chunk_unpacked_size as int
        }
    }

    /// Where chunk `i` starts in the bundle.
    pub open spec fn chunk_start(self, i: nat) -> nat
        decreases i,
    {
        if i == 0 {
            self.data_offset
        } else {
            self.chunk_start((i - 1) as nat) + self.chunk_sizes[i - 1] as nat
        }
    }

    /// Whether `decoded` holds chunk `i` in full.
    pub open spec fn chunk_complete(self, decoded: Seq<Seq<u8>>, i: int) -> bool {
        &&& i < decoded.len()
        &&& decoded[i].len() == self.dst_size(i)
        &&& self.dst_size(i) <= i32::MAX
    }

    /// The first thing that is wrong with the first `n` chunks of a bundle of
    /// `src_len` bytes.
    pub open spec fn first_error(
        self,
        src_len: nat,
        decoded: Seq<Seq<u8>>,
        n: nat,
    ) -> Option<BundleError>
        decreases n,
    {
        if n == 0 {
            None
        } else {
            match self.first_error(src_len, decoded, (n - 1) as nat) {
                Some(e) => Some(e),
                None => if self.chunk_start(n) > src_len {
                    Some(BundleError::ChunkExceedsSource)
                } else if !self.chunk_complete(decoded, n - 1) {
                    Some(BundleError::ChunkSize)
                } else {
                    None
                },
            }
        }
    }

    /// Whether a span has bytes beyond the uncompressed bundle.
    pub open spec fn span_exceeds(self, span: (u32, u32)) -> bool {
        span.0 + span.1 > self.uncompressed_size
    }

    /// Whether chunk `c` holds a byte of the span.
    pub open spec fn span_needs(self, span: (u32, u32), c: int) -> bool {
        &&& span.1 > 0
        &&& span.0 as int / (self.chunk_unpacked_size as int) <= c
        &&& c <= (span.0 + span.1 - 1) / self.chunk_unpacked_size as int
    }

    /// Whether the chunk table has every chunk of the span.
    pub open spec fn span_present(self, span: (u32, u32)) -> bool {
        span.1 > 0 ==> {
            &&& self.chunk_unpacked_size > 0
            &&& ((span.0 + span.1 - 1) / (self.chunk_unpacked_size as int))
                < self.chunk_sizes.len()
        }
    }

    /// Whether chunk `c` holds a byte of one of the spans.
    pub open spec fn needed(self, spans: Seq<(u32, u32)>, c: int) -> bool {
        exists|k: int| 0 <= k < spans.len() && self.span_needs(#[trigger] spans[k], c)
    }

    /// The bytes of a span.
    pub open spec fn span_bytes(self, decoded: Seq<Seq<u8>>, span: (u32, u32)) -> Seq<u8> {
        Seq::new(
            span.1 as nat,
            |j: int|
                decoded[(span.0 + j) / self.chunk_unpacked_size as int][(span.0 + j)
                    % self.chunk_unpacked_size as int],
        )
    }
}

/// The head at the start of `s`.
pub open spec fn head_of(s: Seq<u8>) -> Result<HeadView, BundleError> {
    if s.len() < 60 {
        Err(BundleError::Truncated)
    } else {
        let count = u32_at(s, 36) as nat;
        let data_offset = (12 + u32_at(s, 8)) as nat;
        if s.len() < 60 + 4 * count {
            Err(BundleError::Truncated)
        } else if data_offset < 60 + 4 * count {
            Err(BundleError::HeadTooSmall)
        } else if count > 0 && u32_at(s, 40) == 0 {
            Err(BundleError::ZeroChunkSize)
        } else {
            Ok(
                HeadView {
                    uncompressed_size: u64_at(s, 20) as nat,
                    chunk_unpacked_size: u32_at(s, 40) as nat,
                    chunk_sizes: Seq::new(count, |i: int| u32_at(s, 60 + 4 * i)),
                    data_offset,
                },
            )
        }
    }
}

/// What a bundle decompresses to, given what the codec wrote for each chunk.
pub open spec fn decompressed(src: Seq<u8>, decoded: Seq<Seq<u8>>) -> Result<
    Seq<u8>,
    BundleError,
> {
    match head_of(src) {
        Err(e) => Err(e),
        Ok(head) => {
            let count = head.chunk_sizes.len();
            match head.first_error(src.len(), decoded, count) {
                Some(e) => Err(e),
                None => if joined(decoded, count).len() == head.uncompressed_size {
                    Ok(joined(decoded, count))
                } else {
                    Err(BundleError::SizeMismatch)
                },
            }
        },
    }
}

/// What the spans of a bundle hold, given what the codec wrote for the chunks
/// that they need.
pub open spec fn decompressed_slices(
    src: Seq<u8>,
    spans: Seq<(u32, u32)>,
    decoded: Seq<Seq<u8>>,
) -> Result<Seq<Seq<u8>>, BundleError> {
    match head_of(src) {
        Err(e) => Err(e),
        Ok(head) => {
            let count = head.chunk_sizes.len();
            if exists|k: int| 0 <= k < spans.len() && head.span_exceeds(#[trigger] spans[k]) {
                Err(BundleError::SpanExceedsBundle)
            } else if count > 0 && head.chunk_start(count) > src.len() {
                Err(BundleError::ChunkExceedsSource)
            } else if exists|k: int|
                0 <= k < spans.len() && !head.span_present(#[trigger] spans[k]) {
                Err(BundleError::SpanMissing)
            } else if exists|c: int|
                0 <= c < count && head.needed(spans, c) && !(#[trigger] head.chunk_complete(
                    decoded,
                    c,
                )) {
                Err(BundleError::ChunkSize)
            } else {
                Ok(spans.map_values(|span: (u32, u32)| head.span_bytes(decoded, span)))
            }
        },
    }
}

impl BundleHead {
    /// Uncompressed size of chunk `index` (the last chunk is usually short).
    pub fn chunk_dst_size(&self, index: usize) -> (r: u64)
        requires
            index <= u32::MAX,
        ensures
            r == self@.dst_size(index as int),
    {
        proof {
            assert(0 <= index * self.chunk_unpacked_size <= u64::MAX) by (nonlinear_arith)
                requires
                    index <= u32::MAX,
            ;
        }
        let start: u64 = index as u64 * self.chunk_unpacked_size as u64;
        if start >= self.uncompressed_size {
            0
        } else if self.uncompressed_size - start < self.chunk_unpacked_size as u64 {
            self.uncompressed_size - start
        } else {
            self.chunk_unpacked_size as u64
        }
    }
}

/// Reads the head and the chunk table of a bundle.
pub fn parse_bundle_head(src: &[u8]) -> (r: Result<BundleHead, BundleError>)
    ensures
        match r {
            Ok(head) => head_of(src@) == Ok::<HeadView, BundleError>(head@),
            Err(e) => head_of(src@) == Err::<HeadView, BundleError>(e),
        },
{
    if src.len() < 60 {
        return Err(BundleError::Truncated);
    }
    let head_size: u32 = match read_u32_at(src, 8) {
        Some(v) => v,
        None => return Err(BundleError::Truncated),
    };
    let uncompressed_size: u64 = match read_u64_at(src, 20) {
        Some(v) => v,
        None => return Err(BundleError::Truncated),
    };
    let chunk_count: u32 = match read_u32_at(src, 36) {
        Some(v) => v,
        None => return Err(BundleError::Truncated),
    };
    let chunk_unpacked_size: u32 = match read_u32_at(src, 40) {
        Some(v) => v,
        None => return Err(BundleError::Truncated),
    };
    if ((src.len() - 60) / 4) < chunk_count as usize {
        return Err(BundleError::Truncated);
    }
    let mut chunk_sizes: Vec<u32> = Vec::new();
    let mut i: usize = 0;
    while i < chunk_count as usize
        invariant
            i <= chunk_count,
            60 + 4 * chunk_count <= src@.len() <= usize::MAX,
            chunk_sizes@ == Seq::new(i as nat, |k: int| u32_at(src@, 60 + 4 * k)),
        decreases chunk_count - i,
    {
        match read_u32_at(src, 60 + 4 * i) {
            Some(v) => chunk_sizes.push(v),
            None => return Err(BundleError::Truncated),
        }
        i = i + 1;
        assert(chunk_sizes@ =~= Seq::new(i as nat, |k: int| u32_at(src@, 60 + 4 * k)));
    }
    let data_offset: u64 = 12 + head_size as u64;
    if data_offset < 60 + 4 * chunk_count as u64 {
        return Err(BundleError::HeadTooSmall);
    }
    if chunk_count > 0 && chunk_unpacked_size == 0 {
        return Err(BundleError::ZeroChunkSize);
    }
    Ok(BundleHead { uncompressed_size, chunk_unpacked_size, chunk_sizes, data_offset })
}

proof fn lemma_chunk_start_monotone(head: HeadView, i: nat, j: nat)
    requires
        i <= j,
    ensures
        head.chunk_start(i) <= head.chunk_start(j),
    decreases j,
{
    if i < j {
        lemma_chunk_start_monotone(head, i, (j - 1) as nat);
    }
}

proof fn lemma_first_error_stays(
    head: HeadView,
    src_len: nat,
    decoded: Seq<Seq<u8>>,
    i: nat,
    n: nat,
)
    requires
        i <= n,
        head.first_error(src_len, decoded, i) is Some,
    ensures
        head.first_error(src_len, decoded, n) == head.first_error(src_len, decoded, i),
    decreases n,
{
    if i < n {
        lemma_first_error_stays(head, src_len, decoded, i, (n - 1) as nat);
    }
}

/// Whether the codec wrote as many bytes as chunk `index` holds.
fn chunk_is_complete(head: &BundleHead, decoded: &Vec<Vec<u8>>, index: usize) -> (r: bool)
    requires
        index <= u32::MAX,
    ensures
        r == head@.chunk_complete(byte_seqs(decoded@), index as int),
{
    let size: u64 = head.chunk_dst_size(index);
    index < decoded.len() && decoded[index].len() as u64 == size && size <= 0x7fff_ffff
}

/// Decompresses a bundle. `decoded` holds what the codec wrote for each chunk,
/// in order; for a chunk that the codec could not decompress, anything that is
/// not as long as the chunk.
pub fn decompress_bundle(src: &[u8], decoded: &Vec<Vec<u8>>) -> (r: Result<Vec<u8>, BundleError>)
    ensures
        match r {
            Ok(out) => decompressed(src@, byte_seqs(decoded@)) == Ok::<Seq<u8>, BundleError>(out@),
            Err(e) => decompressed(src@, byte_seqs(decoded@)) == Err::<Seq<u8>, BundleError>(e),
        },
{
    let head = match parse_bundle_head(src) {
        Ok(head) => head,
        Err(e) => return Err(e),
    };
    let ghost parts = byte_seqs(decoded@);
    let count: usize = head.chunk_sizes.len();
    let mut out: Vec<u8> = Vec::new();
    let mut offset: u64 = head.data_offset;
    let mut i: usize = 0;
    while i < count
        invariant
            i <= count == head.chunk_sizes@.len() <= u32::MAX,
            parts == byte_seqs(decoded@),
            head_of(src@) == Ok::<HeadView, BundleError>(head@),
            offset == head@.chunk_start(i as nat),
            offset <= src@.len() || i == 0,
            offset <= src@.len() || offset <= 12 + u32::MAX,
            head@.first_error(src@.len(), parts, i as nat) is None,
            out@ == joined(parts, i as nat),
        decreases count - i,
    {
        let size: u64 = head.chunk_sizes[i] as u64;
        if offset > src.len() as u64 || size > src.len() as u64 - offset {
            proof {
                lemma_first_error_stays(
                    head@,
                    src@.len(),
                    parts,
                    (i + 1) as nat,
                    count as nat,
                );
            }
            return Err(BundleError::ChunkExceedsSource);
        }
        if !chunk_is_complete(&head, decoded, i) {
            proof {
                lemma_first_error_stays(
                    head@,
                    src@.len(),
                    parts,
                    (i + 1) as nat,
                    count as nat,
                );
            }
            return Err(BundleError::ChunkSize);
        }
        push_all(&mut out, decoded[i].as_slice());
        offset = offset + size;
        i = i + 1;
    }
    if out.len() as u64 != head.uncompressed_size {
        return Err(BundleError::SizeMismatch);
    }
    Ok(out)
}

/// The source ranges of the chunks of a bundle, as far as they lie in it.
pub fn chunk_ranges(head: &BundleHead, src: &[u8]) -> (r: Vec<(usize, usize)>)
    ensures
        r@.len() <= head.chunk_sizes@.len(),
        forall|i: int|
            0 <= i < r@.len() ==> (#[trigger] r@[i]).0 == head@.chunk_start(i as nat) && r@[i].1
                == head@.chunk_start((i + 1) as nat) && r@[i].0 <= r@[i].1 <= src@.len(),
        r@.len() < head.chunk_sizes@.len() ==> head@.chunk_start((r@.len() + 1) as nat)
            > src@.len(),
{
    let count: usize = head.chunk_sizes.len();
    let total: usize = src.len();
    let mut r: Vec<(usize, usize)> = Vec::new();
    let mut offset: u64 = head.data_offset;
    let mut i: usize = 0;
    while i < count
        invariant
            i <= count == head.chunk_sizes@.len(),
            r@.len() == i,
            total == src@.len(),
            offset == head@.chunk_start(i as nat),
            forall|k: int|
                0 <= k < i ==> (#[trigger] r@[k]).0 == head@.chunk_start(k as nat) && r@[k].1
                    == head@.chunk_start((k + 1) as nat) && r@[k].0 <= r@[k].1 <= src@.len(),
        decreases count - i,
    {
        let size: u64 = head.chunk_sizes[i] as u64;
        if offset > total as u64 || size > total as u64 - offset {
            return r;
        }
        r.push((offset as usize, (offset + size) as usize));
        offset = offset + size;
        i = i + 1;
    }
    r
}

/// Which chunks hold bytes of the spans.
pub fn needed_chunks(head: &BundleHead, spans: &[(u32, u32)]) -> (r: Vec<bool>)
    requires
        head.chunk_unpacked_size > 0 || head.chunk_sizes@.len() == 0,
    ensures
        r@.len() == head.chunk_sizes@.len(),
        forall|c: int| 0 <= c < r@.len() ==> (#[trigger] r@[c] <==> head@.needed(spans@, c)),
{
    let count: usize = head.chunk_sizes.len();
    let mut r: Vec<bool> = Vec::new();
    let mut c: usize = 0;
    while c < count
        invariant
            c <= count == head.chunk_sizes@.len(),
            head.chunk_unpacked_size > 0 || head.chunk_sizes@.len() == 0,
            r@.len() == c,
            forall|d: int| 0 <= d < c ==> (#[trigger] r@[d] <==> head@.needed(spans@, d)),
        decreases count - c,
    {
        let mut found: bool = false;
        let n: usize = spans.len();
        let cs: u64 = head.chunk_unpacked_size as u64;
        let mut k: usize = 0;
        while k < n
            invariant
                k <= n == spans@.len(),
                cs == head.chunk_unpacked_size,
                cs > 0,
                found <==> exists|j: int|
                    0 <= j < k && head@.span_needs(#[trigger] spans@[j], c as int),
            decreases n - k,
        {
            let span: (u32, u32) = spans[k];
            if span.1 > 0 {
                let first: u64 = span.0 as u64 / cs;
                let last: u64 = (span.0 as u64 + span.1 as u64 - 1) / cs;
                if first <= c as u64 && c as u64 <= last {
                    found = true;
                    assert(head@.span_needs(spans@[k as int], c as int));
                }
            }
            k = k + 1;
        }
        r.push(found);
        c = c + 1;
    }
    r
}

/// The bytes of one span, from chunks that are complete.
fn span_slice(head: &BundleHead, decoded: &Vec<Vec<u8>>, span: (u32, u32)) -> (r: Vec<u8>)
    requires
        !head@.span_exceeds(span),
        head@.span_present(span),
        head.chunk_sizes@.len() <= u32::MAX,
        forall|c: int|
            0 <= c < head.chunk_sizes@.len() && head@.span_needs(span, c)
                ==> #[trigger] head@.chunk_complete(byte_seqs(decoded@), c),
    ensures
        r@ == head@.span_bytes(byte_seqs(decoded@), span),
{
    let ghost parts = byte_seqs(decoded@);
    let mut r: Vec<u8> = Vec::new();
    let n: u32 = span.1;
    let cs: u64 = head.chunk_unpacked_size as u64;
    let mut j: u32 = 0;
    while j < n
        invariant
            j <= n == span.1,
            cs == head.chunk_unpacked_size,
            cs > 0 || n == 0,
            parts == byte_seqs(decoded@),
            head.chunk_sizes@.len() <= u32::MAX,
            !head@.span_exceeds(span),
            head@.span_present(span),
            forall|c: int|
                0 <= c < head.chunk_sizes@.len() && head@.span_needs(span, c)
                    ==> #[trigger] head@.chunk_complete(parts, c),
            r@ == head@.span_bytes(parts, span).take(j as int),
        decreases n - j,
    {
        let p: u64 = span.0 as u64 + j as u64;
        let c: u64 = p / cs;
        let o: u64 = p % cs;
        proof {
            let csi = cs as int;
            assert(0 <= c) ;
            assert(c <= (span.0 + span.1 - 1) / csi && span.0 as int / csi <= c && p == c * csi + o
                && 0 <= o < csi) by (nonlinear_arith)
                requires
                    csi == cs as int,
                    cs > 0,
                    c == p as int / csi,
                    o == p as int % csi,
                    p == span.0 + j,
                    j < span.1,
            ;
            assert(head@.span_needs(span, c as int));
            assert(head@.chunk_complete(parts, c as int));
            assert(p < head.uncompressed_size);
        }
        let b: u8 = decoded[c as usize][o as usize];
        r.push(b);
        j = j + 1;
        assert(r@ =~= head@.span_bytes(parts, span).take(j as int));
    }
    assert(r@ =~= head@.span_bytes(parts, span));
    r
}

/// Takes the bytes of each requested `(offset, size)` span out of a bundle.
/// Only the chunks that the spans lie in have to be decompressed: `decoded`
/// holds what the codec wrote for those, and anything for the others.
pub fn decompress_bundle_slices(
    src: &[u8],
    spans: &[(u32, u32)],
    decoded: &Vec<Vec<u8>>,
) -> (r: Result<Vec<Vec<u8>>, BundleError>)
    ensures
        match r {
            Ok(out) => decompressed_slices(src@, spans@, byte_seqs(decoded@)) == Ok::<
                Seq<Seq<u8>>,
                BundleError,
            >(byte_seqs(out@)),
            Err(e) => decompressed_slices(src@, spans@, byte_seqs(decoded@)) == Err::<
                Seq<Seq<u8>>,
                BundleError,
            >(e),
        },
{
    let head = match parse_bundle_head(src) {
        Ok(head) => head,
        Err(e) => return Err(e),
    };
    let ghost parts = byte_seqs(decoded@);
    let count: usize = head.chunk_sizes.len();
    let n: usize = spans.len();
    let mut k: usize = 0;
    while k < n
        invariant
            k <= n == spans@.len(),
            head_of(src@) == Ok::<HeadView, BundleError>(head@),
            forall|j: int| 0 <= j < k ==> !head@.span_exceeds(#[trigger] spans@[j]),
        decreases n - k,
    {
        let span: (u32, u32) = spans[k];
        if span.0 as u64 + span.1 as u64 > head.uncompressed_size {
            assert(head@.span_exceeds(spans@[k as int]));
            return Err(BundleError::SpanExceedsBundle);
        }
        k = k + 1;
    }
    let ranges = chunk_ranges(&head, src);
    proof {
        if ranges@.len() < count {
            lemma_chunk_start_monotone(head@, (ranges@.len() + 1) as nat, count as nat);
        } else if count > 0 {
            assert(ranges@[count - 1].1 == head@.chunk_start(count as nat));
        }
    }
    if ranges.len() < count {
        return Err(BundleError::ChunkExceedsSource);
    }
    let cs: u64 = head.chunk_unpacked_size as u64;
    k = 0;
    while k < n
        invariant
            k <= n == spans@.len(),
            head_of(src@) == Ok::<HeadView, BundleError>(head@),
            cs == head.chunk_unpacked_size,
            count == head.chunk_sizes@.len(),
            forall|j: int| 0 <= j < n ==> !head@.span_exceeds(#[trigger] spans@[j]),
            !(count > 0 && head@.chunk_start(count as nat) > src@.len()),
            forall|j: int| 0 <= j < k ==> head@.span_present(#[trigger] spans@[j]),
        decreases n - k,
    {
        let span: (u32, u32) = spans[k];
        if span.1 > 0 {
            if cs == 0 || (span.0 as u64 + span.1 as u64 - 1) / cs >= count as u64 {
                assert(!head@.span_present(spans@[k as int]));
                return Err(BundleError::SpanMissing);
            }
        }
        assert(head@.span_present(spans@[k as int]));
        k = k + 1;
    }
    let needed = needed_chunks(&head, spans);
    let mut c: usize = 0;
    while c < count
        invariant
            c <= count == head.chunk_sizes@.len() == needed@.len(),
            count <= u32::MAX,
            n == spans@.len(),
            parts == byte_seqs(decoded@),
            head_of(src@) == Ok::<HeadView, BundleError>(head@),
            forall|d: int| 0 <= d < count ==> (#[trigger] needed@[d] <==> head@.needed(spans@, d)),
            forall|j: int| 0 <= j < n ==> !head@.span_exceeds(#[trigger] spans@[j]),
            !(count > 0 && head@.chunk_start(count as nat) > src@.len()),
            forall|j: int| 0 <= j < n ==> head@.span_present(#[trigger] spans@[j]),
            forall|d: int|
                0 <= d < c && head@.needed(spans@, d) ==> #[trigger] head@.chunk_complete(parts, d),
        decreases count - c,
    {
        if needed[c] {
            if !chunk_is_complete(&head, decoded, c) {
                assert(!head@.chunk_complete(parts, c as int));
                return Err(BundleError::ChunkSize);
            }
        }
        c = c + 1;
    }
    let mut out: Vec<Vec<u8>> = Vec::new();
    k = 0;
    while k < n
        invariant
            k <= n == spans@.len(),
            parts == byte_seqs(decoded@),
            head.chunk_sizes@.len() <= u32::MAX,
            forall|j: int| 0 <= j < n ==> !head@.span_exceeds(#[trigger] spans@[j]),
            forall|j: int| 0 <= j < n ==> head@.span_present(#[trigger] spans@[j]),
            forall|d: int|
                0 <= d < head.chunk_sizes@.len() && head@.needed(spans@, d)
                    ==> #[trigger] head@.chunk_complete(parts, d),
            out@.len() == k,
            forall|j: int|
                0 <= j < k ==> (#[trigger] out@[j])@ == head@.span_bytes(parts, spans@[j]),
        decreases n - k,
    {
        assert forall|d: int|
            0 <= d < head.chunk_sizes@.len() && head@.span_needs(
                spans@[k as int],
                d,
            ) implies #[trigger] head@.chunk_complete(parts, d) by {
            assert(head@.needed(spans@, d));
        }
        let slice = span_slice(&head, decoded, spans[k]);
        out.push(slice);
        k = k + 1;
    }
    assert(byte_seqs(out@) =~= spans@.map_values(
        |span: (u32, u32)| head@.span_bytes(parts, span),
    ));
    Ok(out)
}

/// How many chunks `len` bytes make.
pub open spec fn chunk_count_of(len: nat) -> nat {
    ((len + BUNDLE_CHUNK_SIZE - 1) / BUNDLE_CHUNK_SIZE as int) as nat
}

/// Piece `i` of `data`: what goes into chunk `i`.
pub open spec fn piece(data: Seq<u8>, i: int) -> Seq<u8> {
    let end = (i + 1) * BUNDLE_CHUNK_SIZE;
    data.subrange(
        i * BUNDLE_CHUNK_SIZE,
        if end < data.len() {
            end
        } else {
            data.len() as int
        },
    )
}

/// `data` cut into the pieces that are compressed one by one.
pub open spec fn pieces(data: Seq<u8>) -> Seq<Seq<u8>> {
    Seq::new(chunk_count_of(data.len()), |i: int| piece(data, i))
}

/// The sizes of the first `n` chunks.
pub open spec fn size_table(chunks: Seq<Seq<u8>>, n: nat) -> Seq<u8>
    decreases n,
{
    if n == 0 {
        Seq::empty()
    } else {
        size_table(chunks, (n - 1) as nat) + u32_bytes(chunks[n - 1].len() as u32)
    }
}

/// The head in front of the chunk table.
pub open spec fn fixed_head(data_len: nat, compressed_len: nat, count: nat) -> Seq<u8> {
    u32_bytes(data_len as u32) + u32_bytes(compressed_len as u32) + u32_bytes(
        (BUNDLE_FIXED_HEAD_SIZE_AFTER_PREFIX + 4 * count) as u32,
    ) + u32_bytes(OODLE_MERMAID_COMPRESSOR) + u32_bytes(1) + u64_bytes(data_len as u64) + u64_bytes(
        compressed_len as u64,
    ) + u32_bytes(count as u32) + u32_bytes(BUNDLE_CHUNK_SIZE as u32) + u32_bytes(0) + u32_bytes(0)
        + u32_bytes(0) + u32_bytes(0)
}

/// The bundle that holds `data_len` bytes in the given compressed chunks.
pub open spec fn packed(data_len: nat, chunks: Seq<Seq<u8>>) -> Result<Seq<u8>, BundleError> {
    let body = joined(chunks, chunks.len());
    if data_len > u32::MAX || body.len() > u32::MAX {
        Err(BundleError::TooLarge)
    } else {
        Ok(
            fixed_head(data_len, body.len(), chunks.len()) + size_table(chunks, chunks.len())
                + body,
        )
    }
}

proof fn lemma_joined_monotone(parts: Seq<Seq<u8>>, i: nat, n: nat)
    requires
        i <= n,
    ensures
        joined(parts, i).len() <= joined(parts, n).len(),
    decreases n,
{
    if i < n {
        lemma_joined_monotone(parts, i, (n - 1) as nat);
    }
}

/// Packs `data` into a bundle. `chunks` holds what the codec made of each piece
/// of `BUNDLE_CHUNK_SIZE` bytes, in order.
pub fn pack_uncompressed_bundle(data: &[u8], chunks: &Vec<Vec<u8>>) -> (r: Result<
    Vec<u8>,
    BundleError,
>)
    requires
        chunks@.len() == chunk_count_of(data@.len()),
    ensures
        match r {
            Ok(out) => packed(data@.len(), byte_seqs(chunks@)) == Ok::<Seq<u8>, BundleError>(out@),
            Err(e) => packed(data@.len(), byte_seqs(chunks@)) == Err::<Seq<u8>, BundleError>(e),
        },
{
    let ghost parts = byte_seqs(chunks@);
    if data.len() > 0xffff_ffff {
        return Err(BundleError::TooLarge);
    }
    let count: usize = chunks.len();
    let mut compressed_len: u32 = 0;
    let mut i: usize = 0;
    while i < count
        invariant
            i <= count == chunks@.len(),
            parts == byte_seqs(chunks@),
            compressed_len == joined(parts, i as nat).len(),
        decreases count - i,
    {
        let len: usize = chunks[i].len();
        if len > (0xffff_ffff - compressed_len) as usize {
            proof {
                assert(joined(parts, (i + 1) as nat).len() > u32::MAX);
                lemma_joined_monotone(parts, (i + 1) as nat, count as nat);
            }
            return Err(BundleError::TooLarge);
        }
        compressed_len = compressed_len + len as u32;
        i = i + 1;
    }
    let head_size: u32 = 48 + 4 * count as u32;
    let mut out: Vec<u8> = Vec::new();
    push_u32(&mut out, data.len() as u32);
    push_u32(&mut out, compressed_len);
    push_u32(&mut out, head_size);
    push_u32(&mut out, OODLE_MERMAID_COMPRESSOR);
    push_u32(&mut out, 1);
    push_u64(&mut out, data.len() as u64);
    push_u64(&mut out, compressed_len as u64);
    push_u32(&mut out, count as u32);
    push_u32(&mut out, BUNDLE_CHUNK_SIZE as u32);
    push_u32(&mut out, 0);
    push_u32(&mut out, 0);
    push_u32(&mut out, 0);
    push_u32(&mut out, 0);
    let ghost head = fixed_head(data@.len(), compressed_len as nat, count as nat);
    assert(out@ =~= head);
    i = 0;
    while i < count
        invariant
            i <= count == chunks@.len(),
            parts == byte_seqs(chunks@),
            out@ == head + size_table(parts, i as nat),
            compressed_len == joined(parts, count as nat).len(),
        decreases count - i,
    {
        let len: usize = chunks[i].len();
        proof {
            lemma_joined_monotone(parts, (i + 1) as nat, count as nat);
            assert(parts[i as int].len() <= u32::MAX);
        }
        push_u32(&mut out, len as u32);
        i = i + 1;
        assert(out@ =~= head + size_table(parts, i as nat));
    }
    let ghost table = head + size_table(parts, count as nat);
    i = 0;
    while i < count
        invariant
            i <= count == chunks@.len(),
            parts == byte_seqs(chunks@),
            out@ == table + joined(parts, i as nat),
        decreases count - i,
    {
        push_all(&mut out, chunks[i].as_slice());
        i = i + 1;
        assert(out@ =~= table + joined(parts, i as nat));
    }
    Ok(out)
}

proof fn lemma_size_table(chunks: Seq<Seq<u8>>, n: nat, i: int)
    requires
        0 <= i < n,
    ensures
        size_table(chunks, n).len() == 4 * n,
        size_table(chunks, n).subrange(4 * i, 4 * i + 4) == u32_bytes(chunks[i].len() as u32),
    decreases n,
{
    lemma_int_bytes();
    let last = u32_bytes(chunks[n - 1].len() as u32);
    let before = size_table(chunks, (n - 1) as nat);
    assert(size_table(chunks, n) == before + last);
    if i < n - 1 {
        lemma_size_table(chunks, (n - 1) as nat, i);
        assert(size_table(chunks, n).subrange(4 * i, 4 * i + 4) =~= before.subrange(
            4 * i,
            4 * i + 4,
        ));
    } else {
        if n > 1 {
            lemma_size_table(chunks, (n - 1) as nat, 0);
        }
        assert(before.len() == 4 * (n - 1));
        assert(size_table(chunks, n).subrange(4 * i, 4 * i + 4) =~= last);
    }
}

proof fn lemma_size_table_len(chunks: Seq<Seq<u8>>, n: nat)
    ensures
        size_table(chunks, n).len() == 4 * n,
{
    if n > 0 {
        lemma_size_table(chunks, n, 0);
    }
}

proof fn lemma_fixed_head(data_len: nat, compressed_len: nat, count: nat)
    requires
        data_len <= u32::MAX,
        compressed_len <= u32::MAX,
        48 + 4 * count <= u32::MAX,
    ensures
        fixed_head(data_len, compressed_len, count).len() == 60,
        ({
            let h = fixed_head(data_len, compressed_len, count);
            &&& u32_at(h, 8) == 48 + 4 * count
            &&& u64_at(h, 20) == data_len
            &&& u32_at(h, 36) == count
            &&& u32_at(h, 40) == BUNDLE_CHUNK_SIZE
        }),
{
    lemma_int_bytes();
    let h = fixed_head(data_len, compressed_len, count);
    assert(h.len() == 60);
    assert(h.subrange(8, 12) =~= u32_bytes((48 + 4 * count) as u32));
    assert(h.subrange(20, 28) =~= u64_bytes(data_len as u64));
    assert(h.subrange(36, 40) =~= u32_bytes(count as u32));
    assert(h.subrange(40, 44) =~= u32_bytes(BUNDLE_CHUNK_SIZE as u32));
}

proof fn lemma_joined_range(parts: Seq<Seq<u8>>, i: nat, n: nat)
    requires
        i < n,
    ensures
        joined(parts, (i + 1) as nat).len() <= joined(parts, n).len(),
        joined(parts, n).subrange(
            joined(parts, i).len() as int,
            joined(parts, (i + 1) as nat).len() as int,
        ) == parts[i as int],
    decreases n,
{
    lemma_joined_monotone(parts, (i + 1) as nat, n);
    let range = joined(parts, n).subrange(
        joined(parts, i).len() as int,
        joined(parts, (i + 1) as nat).len() as int,
    );
    if i + 1 == n {
        assert(range =~= parts[i as int]);
    } else {
        lemma_joined_range(parts, i, (n - 1) as nat);
        lemma_joined_monotone(parts, (i + 1) as nat, (n - 1) as nat);
        assert(range =~= joined(parts, (n - 1) as nat).subrange(
            joined(parts, i).len() as int,
            joined(parts, (i + 1) as nat).len() as int,
        ));
    }
}

/// The head of a packed bundle says what was packed, and its chunk table leads
/// to exactly the chunks that were put in.
pub proof fn law_packed_bundle_locates_chunks(data_len: nat, chunks: Seq<Seq<u8>>, out: Seq<u8>)
    requires
        chunks.len() == chunk_count_of(data_len),
        packed(data_len, chunks) == Ok::<Seq<u8>, BundleError>(out),
    ensures
        head_of(out) is Ok,
        ({
            let head = head_of(out)->Ok_0;
            &&& head.uncompressed_size == data_len
            &&& head.chunk_unpacked_size == BUNDLE_CHUNK_SIZE
            &&& head.chunk_sizes == Seq::new(chunks.len(), |i: int| chunks[i].len() as u32)
            &&& head.data_offset == 12 + 48 + 4 * chunks.len()
            &&& out.len() == head.chunk_start(chunks.len())
            &&& forall|i: int|
                0 <= i < chunks.len() ==> out.subrange(
                    #[trigger] head.chunk_start(i as nat) as int,
                    head.chunk_start((i + 1) as nat) as int,
                ) == chunks[i]
        }),
{
    let n = chunks.len();
    let body = joined(chunks, n);
    let fixed = fixed_head(data_len, body.len(), n);
    let table = size_table(chunks, n);
    assert(48 + 4 * n <= u32::MAX);
    lemma_fixed_head(data_len, body.len(), n);
    lemma_size_table_len(chunks, n);
    lemma_int_bytes();
    assert(out.subrange(8, 12) =~= fixed.subrange(8, 12));
    assert(out.subrange(20, 28) =~= fixed.subrange(20, 28));
    assert(out.subrange(36, 40) =~= fixed.subrange(36, 40));
    assert(out.subrange(40, 44) =~= fixed.subrange(40, 44));
    assert forall|i: int| 0 <= i < n implies u32_at(out, 60 + 4 * i) == chunks[i].len() by {
        lemma_size_table(chunks, n, i);
        lemma_joined_range(chunks, i as nat, n);
        assert(out.subrange(60 + 4 * i, 64 + 4 * i) =~= table.subrange(4 * i, 4 * i + 4));
    }
    let head = head_of(out)->Ok_0;
    assert(head.chunk_sizes =~= Seq::new(n, |i: int| chunks[i].len() as u32)) by {
        assert forall|i: int| 0 <= i < n implies head.chunk_sizes[i] == chunks[i].len() as u32 by {
            assert(u32_at(out, 60 + 4 * i) == chunks[i].len());
        }
    }
    assert forall|i: nat| i <= n implies #[trigger] head.chunk_start(i) == 60 + 4 * n + joined(
        chunks,
        i,
    ).len() by {
        lemma_packed_starts(head, chunks, i);
    }
    assert forall|i: int| 0 <= i < n implies out.subrange(
        #[trigger] head.chunk_start(i as nat) as int,
        head.chunk_start((i + 1) as nat) as int,
    ) == chunks[i] by {
        lemma_joined_range(chunks, i as nat, n);
        let a = joined(chunks, i as nat).len() as int;
        let b = joined(chunks, (i + 1) as nat).len() as int;
        assert(head.chunk_start((i + 1) as nat) == 60 + 4 * n + b);
        assert(out.subrange(60 + 4 * n + a, 60 + 4 * n + b) =~= body.subrange(a, b));
    }
}

proof fn lemma_packed_starts(head: HeadView, chunks: Seq<Seq<u8>>, i: nat)
    requires
        i <= chunks.len(),
        head.chunk_sizes == Seq::new(chunks.len(), |k: int| chunks[k].len() as u32),
        head.data_offset == 60 + 4 * chunks.len(),
        joined(chunks, chunks.len()).len() <= u32::MAX,
    ensures
        head.chunk_start(i) == 60 + 4 * chunks.len() + joined(chunks, i).len(),
    decreases i,
{
    if i > 0 {
        lemma_packed_starts(head, chunks, (i - 1) as nat);
        lemma_joined_monotone(chunks, i, chunks.len());
    }
}

proof fn lemma_joined_pieces(data: Seq<u8>, n: nat)
    requires
        n <= chunk_count_of(data.len()),
    ensures
        joined(pieces(data), n) == data.subrange(
            0,
            if n * BUNDLE_CHUNK_SIZE < data.len() {
                n * BUNDLE_CHUNK_SIZE
            } else {
                data.len() as int
            },
        ),
    decreases n,
{
    if n > 0 {
        lemma_joined_pieces(data, (n - 1) as nat);
        assert(pieces(data)[n - 1] == piece(data, n - 1));
        assert((n - 1) * BUNDLE_CHUNK_SIZE < data.len());
        assert(joined(pieces(data), n) =~= data.subrange(
            0,
            if n * BUNDLE_CHUNK_SIZE < data.len() {
                n * BUNDLE_CHUNK_SIZE
            } else {
                data.len() as int
            },
        ));
    } else {
        assert(joined(pieces(data), 0) =~= data.subrange(0, 0));
    }
}

proof fn lemma_packed_no_error(
    head: HeadView,
    src_len: nat,
    data: Seq<u8>,
    n: nat,
)
    requires
        n <= chunk_count_of(data.len()),
        data.len() <= u32::MAX,
        head.uncompressed_size == data.len(),
        head.chunk_unpacked_size == BUNDLE_CHUNK_SIZE,
        head.chunk_sizes.len() == chunk_count_of(data.len()),
        src_len == head.chunk_start(head.chunk_sizes.len()),
    ensures
        head.first_error(src_len, pieces(data), n) is None,
    decreases n,
{
    if n > 0 {
        lemma_packed_no_error(head, src_len, data, (n - 1) as nat);
        lemma_chunk_start_monotone(head, n, head.chunk_sizes.len());
        assert(pieces(data)[n - 1] == piece(data, n - 1));
        assert((n - 1) * BUNDLE_CHUNK_SIZE < data.len());
        assert(head.chunk_complete(pieces(data), n - 1));
    }
}

/// A bundle that is packed from `data` and whose chunks the codec decompresses
/// to the pieces of `data` again decompresses to `data`.
pub proof fn law_unpack_gives_back_what_was_packed(
    data: Seq<u8>,
    chunks: Seq<Seq<u8>>,
    out: Seq<u8>,
)
    requires
        chunks.len() == chunk_count_of(data.len()),
        packed(data.len(), chunks) == Ok::<Seq<u8>, BundleError>(out),
    ensures
        decompressed(out, pieces(data)) == Ok::<Seq<u8>, BundleError>(data),
{
    law_packed_bundle_locates_chunks(data.len(), chunks, out);
    let head = head_of(out)->Ok_0;
    lemma_packed_no_error(head, out.len(), data, chunks.len());
    lemma_joined_pieces(data, chunks.len());
    assert(joined(pieces(data), chunks.len()) =~= data);
}

/// The byte at `p` of the joined chunks is byte `p % size` of chunk `p / size`.
proof fn lemma_joined_chunks(head: HeadView, src_len: nat, decoded: Seq<Seq<u8>>, n: nat)
    requires
        n <= head.chunk_sizes.len(),
        n > 0 ==> head.chunk_unpacked_size > 0,
        head.first_error(src_len, decoded, n) is None,
    ensures
        joined(decoded, n).len() == if n * head.chunk_unpacked_size < head.uncompressed_size {
            n * head.chunk_unpacked_size
        } else {
            head.uncompressed_size
        },
        forall|p: int|
            0 <= p < joined(decoded, n).len() ==> #[trigger] joined(decoded, n)[p] == decoded[p
                / head.chunk_unpacked_size as int][p % head.chunk_unpacked_size as int],
    decreases n,
{
    if n > 0 {
        let cs = head.chunk_unpacked_size as int;
        let m = n - 1;
        lemma_joined_chunks(head, src_len, decoded, m as nat);
        assert(head.chunk_complete(decoded, m));
        let before = joined(decoded, m as nat);
        assert(n * cs == m * cs + cs) by (nonlinear_arith)
            requires
                n == m + 1,
        ;
        assert forall|p: int| 0 <= p < joined(decoded, n).len() implies #[trigger] joined(
            decoded,
            n,
        )[p] == decoded[p / cs][p % cs] by {
            if p < before.len() {
                assert(joined(decoded, n)[p] == before[p]);
            } else {
                assert(before.len() == m * cs);
                let o = p - m * cs;
                assert(0 <= o < cs);
                assert(p / cs == m && p % cs == o) by (nonlinear_arith)
                    requires
                        p == m * cs + o,
                        0 <= o < cs,
                        cs > 0,
                ;
                assert(joined(decoded, n)[p] == decoded[m][o]);
            }
        }
    }
}

/// What a span of a bundle holds is that part of the whole bundle.
pub proof fn law_slices_match_full_decompression(
    src: Seq<u8>,
    decoded: Seq<Seq<u8>>,
    full: Seq<u8>,
    spans: Seq<(u32, u32)>,
)
    requires
        decompressed(src, decoded) == Ok::<Seq<u8>, BundleError>(full),
        forall|k: int|
            0 <= k < spans.len() ==> (#[trigger] spans[k]).0 + spans[k].1 <= full.len(),
    ensures
        decompressed_slices(src, spans, decoded) == Ok::<Seq<Seq<u8>>, BundleError>(
            spans.map_values(
                |span: (u32, u32)| full.subrange(span.0 as int, span.0 + span.1),
            ),
        ),
{
    let head = head_of(src)->Ok_0;
    let count = head.chunk_sizes.len();
    let cs = head.chunk_unpacked_size as int;
    lemma_joined_chunks(head, src.len(), decoded, count);
    if count > 0 {
        lemma_complete_when_no_error(head, src.len(), decoded, count, count);
    }
    assert forall|k: int| 0 <= k < spans.len() implies head.span_present(#[trigger] spans[k]) by {
        let span = spans[k];
        if span.1 > 0 {
            let last = span.0 + span.1 - 1;
            assert(0 <= last < full.len() <= count * cs);
            assert(count > 0) by (nonlinear_arith)
                requires
                    0 <= last < count * cs,
                    count >= 0,
            ;
            assert(last / cs < count) by (nonlinear_arith)
                requires
                    0 <= last < count * cs,
                    cs > 0,
            ;
        }
    }
    assert forall|c: int| 0 <= c < count implies #[trigger] head.chunk_complete(decoded, c) by {
        lemma_complete_when_no_error(head, src.len(), decoded, (c + 1) as nat, count);
    }
    let got = spans.map_values(|span: (u32, u32)| head.span_bytes(decoded, span));
    let want = spans.map_values(|span: (u32, u32)| full.subrange(span.0 as int, span.0 + span.1));
    assert forall|k: int| 0 <= k < spans.len() implies got[k] == want[k] by {
        let span = spans[k];
        assert(head.span_bytes(decoded, span) =~= full.subrange(span.0 as int, span.0 + span.1));
    }
    assert(got =~= want);
}

proof fn lemma_complete_when_no_error(
    head: HeadView,
    src_len: nat,
    decoded: Seq<Seq<u8>>,
    i: nat,
    n: nat,
)
    requires
        0 < i <= n,
        head.first_error(src_len, decoded, n) is None,
    ensures
        head.chunk_complete(decoded, i - 1),
        head.chunk_start(i) <= src_len,
    decreases n,
{
    if i < n {
        lemma_complete_when_no_error(head, src_len, decoded, i, (n - 1) as nat);
    }
}

} // verus!
