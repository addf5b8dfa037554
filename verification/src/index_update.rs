//! Changes to the bundle index, and that its bytes keep up with them.

use crate::bytes::{lemma_int_bytes, overwrite, patched, push_all, push_u32, u32_at, u32_bytes};
use crate::index::{
    bundle_at, bundle_views, bundles_at, by_hash, directories_at, file_at, file_views, files_at,
    hashes, parsed, rest_of, BundleFile, BundleIndex, BundleInfo, BundleView, FileView, IndexError,
    IndexView,
};
use crate::text::{
    chars_of, decimal, decimal_chars, lemma_decimal_injective, push_chars, same_text, string_of,
};
use std::collections::HashMap;
use vstd::prelude::*;
use vstd::utf8::encode_utf8;

verus! {

broadcast use vstd::std_specs::hash::group_hash_axioms;

/// The three numbers of a file record behind the hash.
pub open spec fn record_tail(bundle_index: u32, offset: u32, size: u32) -> Seq<u8> {
    u32_bytes(bundle_index) + u32_bytes(offset) + u32_bytes(size)
}

/// The index after the file `hash` has moved.
pub open spec fn with_file_record(
    v: IndexView,
    hash: u64,
    bundle_index: u32,
    offset: u32,
    size: u32,
) -> IndexView {
    let file = v.files[hash];
    IndexView {
        raw: patched(v.raw, file.record_pos + 8, record_tail(bundle_index, offset, size)),
        files: v.files.insert(
            hash,
            FileView {
                bundle_index,
                bundle_name: v.bundles[bundle_index as int].name,
                offset,
                size,
                ..file
            },
        ),
        ..v
    }
}

/// The index after the size of a bundle has changed.
pub open spec fn with_bundle_size(v: IndexView, bundle_index: u32, size: u32) -> IndexView {
    let bundle = v.bundles[bundle_index as int];
    IndexView {
        raw: patched(v.raw, bundle.size_pos, u32_bytes(size)),
        bundles: v.bundles.update(
            bundle_index as int,
            BundleView { uncompressed_size: size, ..bundle },
        ),
        ..v
    }
}

/// The record of a bundle of size zero.
pub open spec fn bundle_record(name: Seq<char>) -> Seq<u8> {
    let encoded = encode_utf8(name);
    u32_bytes(encoded.len() as u32) + encoded + u32_bytes(0)
}

pub open spec fn shifted(f: FileView, delta: int) -> FileView {
    FileView { record_pos: f.record_pos + delta, ..f }
}

/// The index with one more bundle, empty, behind the others. The records behind
/// it move by the length of its record.
pub open spec fn with_bundle(v: IndexView, name: Seq<char>) -> IndexView {
    let record = bundle_record(name);
    let pos = v.file_count_pos;
    let grown = v.raw.subrange(0, pos) + record + v.raw.subrange(pos, v.raw.len() as int);
    IndexView {
        raw: patched(grown, 0, u32_bytes((v.bundles.len() + 1) as u32)),
        bundles: v.bundles.push(
            BundleView {
                name,
                uncompressed_size: 0,
                size_pos: pos + 4 + encode_utf8(name).len(),
            },
        ),
        files: v.files.map_values(|f: FileView| shifted(f, record.len() as int)),
        file_count_pos: pos + record.len(),
        ..v
    }
}

/// The name of a bundle of ours.
pub open spec fn custom_name(prefix: Seq<char>, ordinal: nat) -> Seq<char> {
    prefix + decimal(ordinal)
}

/// Whether a bundle has that name.
pub open spec fn name_taken(bundles: Seq<BundleView>, name: Seq<char>) -> bool {
    exists|i: int| 0 <= i < bundles.len() && (#[trigger] bundles[i]).name == name
}

/// Whether `ordinal` is the first whose name is free.
pub open spec fn is_first_free(
    bundles: Seq<BundleView>,
    prefix: Seq<char>,
    ordinal: nat,
) -> bool {
    &&& !name_taken(bundles, custom_name(prefix, ordinal))
    &&& forall|k: nat|
        k < ordinal ==> name_taken(bundles, #[trigger] custom_name(prefix, k))
}

impl IndexView {
    /// Whether the positions that the index holds lie in its bytes.
    pub open spec fn positions_valid(self) -> bool {
        &&& 4 <= self.file_count_pos <= self.raw.len()
        &&& forall|h: u64| #[trigger]
            self.files.contains_key(h) ==> 0 <= self.files[h].record_pos
                && self.files[h].record_pos + 20 <= self.raw.len()
    }

    /// Whether reading the bytes of the index gives the index: the same bundles,
    /// but for the noted place of their size, and the same files, directories
    /// and directory data.
    pub open spec fn describes_bytes(self) -> bool {
        match parsed(self.raw) {
            Err(_) => false,
            Ok(p) => {
                &&& p == (IndexView { bundles: p.bundles, paths: None, ..self })
                &&& same_bundles(p.bundles, self.bundles)
            },
        }
    }

    /// Whether the noted place of the size of a bundle is the right one.
    pub open spec fn size_pos_valid(self, bundle_index: int) -> bool {
        self.bundles[bundle_index].size_pos == parsed(self.raw)->Ok_0.bundles[bundle_index].size_pos
    }
}

/// Whether two lists of bundles agree in names and sizes.
pub open spec fn same_bundles(a: Seq<BundleView>, b: Seq<BundleView>) -> bool {
    &&& a.len() == b.len()
    &&& forall|i: int|
        0 <= i < a.len() ==> (#[trigger] a[i]).name == b[i].name && a[i].uncompressed_size
            == b[i].uncompressed_size
}

/// The hashes of all files, each once.
fn file_hashes(files: &HashMap<u64, BundleFile>) -> (r: Vec<u64>)
    ensures
        r@.to_set() == files@.dom(),
        r@.no_duplicates(),
{
    let mut r: Vec<u64> = Vec::new();
    for k in it: files.keys()
        invariant
            it.seq().unref().to_set() == files@.dom(),
            it.seq().no_duplicates(),
            r@ == it.seq().unref().take(it.index()),
            it.index() == it.seq().len() ==> r@ =~= it.seq().unref(),
    {
        r.push(*k);
        assert(r@ =~= it.seq().unref().take(it.index() + 1));
    }
    r
}

impl BundleIndex {
    /// Whether the positions that the index holds lie in its bytes.
    pub fn has_valid_positions(&self) -> (r: bool)
        ensures
            r == self@.positions_valid(),
    {
        let total: usize = self.raw_decompressed.len();
        if self.file_count_pos < 4 || self.file_count_pos > total {
            return false;
        }
        let keys = file_hashes(&self.files);
        let n: usize = keys.len();
        let mut i: usize = 0;
        while i < n
            invariant
                i <= n == keys@.len(),
                keys@.to_set() == self.files@.dom(),
                total == self.raw_decompressed@.len(),
                4 <= self.file_count_pos <= total,
                forall|j: int|
                    0 <= j < i ==> self.files@[#[trigger] keys@[j]].record_pos + 20 <= total,
            decreases n - i,
        {
            let key: u64 = keys[i];
            assert(keys@.to_set().contains(key));
            match self.files.get(&key) {
                Some(f) => {
                    if f.record_pos > total || total - f.record_pos < 20 {
                        assert(self@.files.contains_key(key));
                        assert(self@.files[key] == self.files@[key]@);
                        return false;
                    }
                },
                None => return false,
            }
            i = i + 1;
        }
        proof {
            assert forall|h: u64| #[trigger] self@.files.contains_key(h) implies 0
                <= self@.files[h].record_pos && self@.files[h].record_pos + 20
                <= self@.raw.len() by {
                assert(self.files@.dom().contains(h));
                assert(keys@.to_set().contains(h));
                let j = choose|j: int| 0 <= j < keys@.len() && keys@[j] == h;
                assert(keys@[j] == h);
            }
        }
        true
    }

    /// Moves a file to another place, possibly in another bundle.
    ///
    /// Where the bundle does not exist, the numbers of the file are changed
    /// nevertheless, but neither its bundle name nor the bytes of the index.
    pub fn update_file_record(&mut self, hash: u64, bundle_index: u32, offset: u32, size: u32) -> (r:
        Result<(), IndexError>)
        requires
            old(self)@.files.contains_key(hash) && bundle_index < old(self)@.bundles.len()
                ==> old(self)@.files[hash].record_pos + 20 <= old(self)@.raw.len(),
        ensures
            match r {
                Ok(_) => old(self)@.files.contains_key(hash) && bundle_index < old(self)@.bundles.len() && final(self)@ == with_file_record(
                    old(self)@,
                    hash,
                    bundle_index,
                    offset,
                    size,
                ),
                Err(IndexError::UnknownHash(h)) => h == hash && !old(self)@.files.contains_key(hash)
                    && final(self)@ == old(self)@,
                Err(e) => {
                    &&& e == IndexError::InvalidBundleIndex(bundle_index)
                    &&& old(self)@.files.contains_key(hash)
                    &&& bundle_index >= old(self)@.bundles.len()
                    &&& final(self)@ == (IndexView {
                        files: old(self)@.files.insert(
                            hash,
                            FileView { bundle_index, offset, size, ..old(self)@.files[hash] },
                        ),
                        ..old(self)@
                    })
                },
            },
            old(self)@.describes_bytes() && r is Ok ==> final(self)@.describes_bytes(),
            old(self)@.describes_bytes() && r is Ok ==> forall|b: int| #[trigger]
                old(self)@.size_pos_valid(b) ==> final(self)@.size_pos_valid(b),
            old(self)@.positions_valid() && r is Ok ==> final(self)@.positions_valid(),
            r is Ok ==> final(self)@.raw.len() == old(self)@.raw.len(),
    {
        let ghost start = self@;
        let ghost map = self.files@;
        let mut file = match self.files.get(&hash) {
            Some(f) => f.clone(),
            None => return Err(IndexError::UnknownHash(hash)),
        };
        assert(start.files[hash] == file@);
        file.bundle_index = bundle_index;
        file.offset = offset;
        file.size = size;
        if bundle_index as usize >= self.bundles.len() {
            let ghost view = file@;
            self.files.insert(hash, file);
            assert(file_views(self.files@) =~= start.files.insert(hash, view));
            return Err(IndexError::InvalidBundleIndex(bundle_index));
        }
        file.bundle_name = self.bundles[bundle_index as usize].name.clone();
        let total: usize = self.raw_decompressed.len();
        let pos: usize = file.record_pos + 8;
        let mut bytes: Vec<u8> = Vec::new();
        push_u32(&mut bytes, bundle_index);
        push_u32(&mut bytes, offset);
        push_u32(&mut bytes, size);
        proof {
            lemma_int_bytes();
            assert(bytes@ =~= record_tail(bundle_index, offset, size));
            assert(start.bundles[bundle_index as int] == self.bundles@[bundle_index as int]@);
        }
        overwrite(&mut self.raw_decompressed, pos, bytes.as_slice());
        let ghost view = file@;
        self.files.insert(hash, file);
        assert(file_views(self.files@) =~= start.files.insert(hash, view));
        proof {
            assert(self@ =~= with_file_record(start, hash, bundle_index, offset, size));
            if start.describes_bytes() {
                lemma_file_record_described(start, hash, bundle_index, offset, size);
            }
            lemma_record_tail_len(bundle_index, offset, size);
            assert(self@.raw.len() == start.raw.len());
        }
        Ok(())
    }

    /// Changes the uncompressed size of a bundle.
    pub fn update_bundle_size(&mut self, bundle_index: u32, uncompressed_size: u32) -> (r: Result<
        (),
        IndexError,
    >)
        requires
            bundle_index < old(self)@.bundles.len() ==> old(self)@.bundles[bundle_index as int].size_pos + 4 <= old(self)@.raw.len(),
        ensures
            match r {
                Ok(_) => bundle_index < old(self)@.bundles.len() && final(self)@
                    == with_bundle_size(old(self)@, bundle_index, uncompressed_size),
                Err(e) => bundle_index >= old(self)@.bundles.len() && e
                    == IndexError::InvalidBundleIndex(bundle_index) && final(self)@ == old(self)@,
            },
            old(self)@.describes_bytes() && r is Ok && old(self)@.size_pos_valid(
                bundle_index as int,
            ) ==> final(self)@.describes_bytes(),
            old(self)@.positions_valid() && r is Ok ==> final(self)@.positions_valid(),
    {
        let ghost start = self@;
        if bundle_index as usize >= self.bundles.len() {
            return Err(IndexError::InvalidBundleIndex(bundle_index));
        }
        let i: usize = bundle_index as usize;
        assert(start.bundles[i as int] == self.bundles@[i as int]@);
        let name = self.bundles[i].name.clone();
        let size_pos: usize = self.bundles[i].size_pos;
        let changed = BundleInfo { name, uncompressed_size, size_pos };
        let ghost view = changed@;
        self.bundles.set(i, changed);
        assert(bundle_views(self.bundles@) =~= start.bundles.update(i as int, view));
        let mut bytes: Vec<u8> = Vec::new();
        push_u32(&mut bytes, uncompressed_size);
        proof {
            lemma_int_bytes();
            assert(bytes@ =~= u32_bytes(uncompressed_size));
        }
        overwrite(&mut self.raw_decompressed, size_pos, bytes.as_slice());
        proof {
            assert(self@ =~= with_bundle_size(start, bundle_index, uncompressed_size));
            if start.describes_bytes() && start.size_pos_valid(bundle_index as int) {
                lemma_bundle_size_described(start, bundle_index, uncompressed_size);
            }
            assert(self@.raw.len() == start.raw.len());
        }
        Ok(())
    }
}

proof fn lemma_record_tail_len(bundle_index: u32, offset: u32, size: u32)
    ensures
        record_tail(bundle_index, offset, size).len() == 12,
{
    lemma_int_bytes();
}

/// Bundles are read from the bytes up to where the last one ends.
proof fn lemma_bundles_prefix(s: Seq<u8>, t: Seq<u8>, n: nat)
    requires
        bundles_at(s, n) is Ok,
        ({
            let pos = bundles_at(s, n)->Ok_0.1;
            pos <= s.len() && pos <= t.len() && forall|k: int| 4 <= k < pos ==> s[k] == t[k]
        }),
    ensures
        bundles_at(t, n) == bundles_at(s, n),
    decreases n,
{
    lemma_bundles_end(s, n);
    if n > 0 {
        let (before, pos) = bundles_at(s, (n - 1) as nat)->Ok_0;
        lemma_bundles_end(s, (n - 1) as nat);
        let end = bundles_at(s, n)->Ok_0.1;
        assert(bundle_at(s, pos) is Ok);
        lemma_bundles_prefix(s, t, (n - 1) as nat);
        let name_end = pos + 4 + u32_at(s, pos);
        assert(s.subrange(pos, pos + 4) =~= t.subrange(pos, pos + 4));
        assert(s.subrange(pos + 4, name_end) =~= t.subrange(pos + 4, name_end));
        assert(s.subrange(name_end, name_end + 4) =~= t.subrange(name_end, name_end + 4));
    }
}

proof fn lemma_bundles_end(s: Seq<u8>, n: nat)
    requires
        bundles_at(s, n) is Ok,
    ensures
        4 <= bundles_at(s, n)->Ok_0.1,
        s.len() >= 4 ==> bundles_at(s, n)->Ok_0.1 <= s.len(),
        bundles_at(s, n)->Ok_0.0.len() == n,
    decreases n,
{
    if n > 0 {
        lemma_bundles_end(s, (n - 1) as nat);
    }
}

/// Each file that is read knows where its record is.
proof fn lemma_files_positions(s: Seq<u8>, start: int, bundles: Seq<BundleView>, n: nat)
    requires
        files_at(s, start, bundles, n) is Ok,
    ensures
        files_at(s, start, bundles, n)->Ok_0.len() == n,
        forall|i: int|
            0 <= i < n ==> Ok::<FileView, IndexError>(
                #[trigger] files_at(s, start, bundles, n)->Ok_0[i],
            ) == file_at(s, start + 20 * i, bundles),
    decreases n,
{
    if n > 0 {
        lemma_files_positions(s, start, bundles, (n - 1) as nat);
    }
}

/// Files that are read one by one are read together.
proof fn lemma_files_from_each(
    s: Seq<u8>,
    start: int,
    bundles: Seq<BundleView>,
    files: Seq<FileView>,
    n: nat,
)
    requires
        n <= files.len(),
        forall|i: int|
            0 <= i < n ==> Ok::<FileView, IndexError>(#[trigger] files[i]) == file_at(
                s,
                start + 20 * i,
                bundles,
            ),
    ensures
        files_at(s, start, bundles, n) == Ok::<Seq<FileView>, IndexError>(files.take(n as int)),
    decreases n,
{
    if n > 0 {
        lemma_files_from_each(s, start, bundles, files, (n - 1) as nat);
        assert(files.take(n as int) =~= files.take(n - 1).push(files[n - 1]));
    } else {
        assert(files.take(0) =~= Seq::<FileView>::empty());
    }
}

/// The file that the map holds for a hash is the last one with that hash.
proof fn lemma_by_hash_last(files: Seq<FileView>, hash: u64) -> (i: int)
    requires
        by_hash(files).contains_key(hash),
    ensures
        0 <= i < files.len(),
        files[i].hash == hash,
        by_hash(files)[hash] == files[i],
        forall|k: int| i < k < files.len() ==> (#[trigger] files[k]).hash != hash,
    decreases files.len(),
{
    if files.last().hash == hash {
        files.len() - 1
    } else {
        let i = lemma_by_hash_last(files.drop_last(), hash);
        assert(files.drop_last()[i] == files[i]);
        assert forall|k: int| i < k < files.len() implies (#[trigger] files[k]).hash != hash by {
            if k < files.len() - 1 {
                assert(files.drop_last()[k] == files[k]);
            }
        }
        i
    }
}

/// Changing the last file with some hash changes the map at that hash.
proof fn lemma_by_hash_update(files: Seq<FileView>, i: int, f: FileView)
    requires
        0 <= i < files.len(),
        f.hash == files[i].hash,
        forall|k: int| i < k < files.len() ==> (#[trigger] files[k]).hash != f.hash,
    ensures
        by_hash(files.update(i, f)) == by_hash(files).insert(f.hash, f),
    decreases files.len(),
{
    let changed = files.update(i, f);
    if i == files.len() - 1 {
        assert(changed.drop_last() =~= files.drop_last());
        assert(by_hash(changed) =~= by_hash(files).insert(f.hash, f));
    } else {
        assert(changed.drop_last() =~= files.drop_last().update(i, f));
        assert forall|k: int| i < k < files.drop_last().len() implies (
        #[trigger] files.drop_last()[k]).hash != f.hash by {
            assert(files.drop_last()[k] == files[k]);
        }
        lemma_by_hash_update(files.drop_last(), i, f);
        assert(files[files.len() - 1].hash != f.hash);
        assert(by_hash(changed) =~= by_hash(files).insert(f.hash, f));
    }
}

/// What follows the bundles is read from the same bytes as the same.
proof fn lemma_rest_agree(
    s: Seq<u8>,
    a: Seq<BundleView>,
    pos: int,
    t: Seq<u8>,
    b: Seq<BundleView>,
    to: int,
    files: Seq<FileView>,
)
    requires
        0 <= pos,
        0 <= to,
        rest_of(s, a, pos) is Ok,
        to + 4 <= t.len(),
        s.subrange(pos, pos + 4) == t.subrange(to, to + 4),
        files_at(t, to + 4, b, u32_at(s, pos) as nat) == Ok::<Seq<FileView>, IndexError>(files),
        ({
            let skip = 4 + 20 * u32_at(s, pos);
            &&& to + skip <= t.len()
            &&& s.subrange(pos + skip, s.len() as int) == t.subrange(to + skip, t.len() as int)
        }),
    ensures
        rest_of(t, b, to) == Ok::<IndexView, IndexError>(
            IndexView {
                raw: t,
                bundles: b,
                files: by_hash(files),
                file_order: hashes(files),
                file_count_pos: to,
                ..rest_of(s, a, pos)->Ok_0
            },
        ),
{
    let skip = 4 + 20 * u32_at(s, pos);
    let x = pos + skip;
    let y = to + skip;
    let n = s.len() - x;
    assert(n == s.subrange(x, s.len() as int).len());
    assert(n == t.subrange(y, t.len() as int).len());
    lemma_same_part(s, x, t, y, n, 0, 4);
    let dirs = u32_at(s, x) as nat;
    assert(u32_at(t, y) == dirs);
    lemma_same_part(s, x, t, y, n, 4, 20 * dirs as int);
    lemma_directories_agree(s, x + 4, t, y + 4, dirs);
    lemma_same_part(s, x, t, y, n, (4 + 20 * dirs) as int, n - 4 - 20 * dirs);
}

/// The file records after one of them has changed.
proof fn lemma_record_changed(
    s: Seq<u8>,
    start: int,
    bundles: Seq<BundleView>,
    count: nat,
    i: int,
    bundle_index: u32,
    offset: u32,
    size: u32,
)
    requires
        0 <= start,
        files_at(s, start, bundles, count) is Ok,
        0 <= i < count,
        bundle_index < bundles.len(),
    ensures
        ({
            let files = files_at(s, start, bundles, count)->Ok_0;
            let t = patched(s, start + 20 * i + 8, record_tail(bundle_index, offset, size));
            let moved = FileView {
                bundle_index,
                bundle_name: bundles[bundle_index as int].name,
                offset,
                size,
                ..files[i]
            };
            files_at(t, start, bundles, count) == Ok::<Seq<FileView>, IndexError>(
                files.update(i, moved),
            )
        }),
{
    let files = files_at(s, start, bundles, count)->Ok_0;
    let q = start + 20 * i + 8;
    let t = patched(s, q, record_tail(bundle_index, offset, size));
    let moved = FileView {
        bundle_index,
        bundle_name: bundles[bundle_index as int].name,
        offset,
        size,
        ..files[i]
    };
    lemma_files_positions(s, start, bundles, count);
    lemma_record_tail_len(bundle_index, offset, size);
    lemma_int_bytes();
    assert(Ok::<FileView, IndexError>(files[i]) == file_at(s, start + 20 * i, bundles));
    assert(t.len() == s.len());
    let changed = files.update(i, moved);
    assert forall|k: int| 0 <= k < count implies Ok::<FileView, IndexError>(#[trigger] changed[k])
        == file_at(t, start + 20 * k, bundles) by {
        let r = start + 20 * k;
        assert(Ok::<FileView, IndexError>(files[k]) == file_at(s, r, bundles));
        assert(t.subrange(r, r + 8) =~= s.subrange(r, r + 8));
        if k == i {
            assert(t.subrange(r + 8, r + 12) =~= u32_bytes(bundle_index));
            assert(t.subrange(r + 12, r + 16) =~= u32_bytes(offset));
            assert(t.subrange(r + 16, r + 20) =~= u32_bytes(size));
        } else {
            assert(t.subrange(r + 8, r + 12) =~= s.subrange(r + 8, r + 12));
            assert(t.subrange(r + 12, r + 16) =~= s.subrange(r + 12, r + 16));
            assert(t.subrange(r + 16, r + 20) =~= s.subrange(r + 16, r + 20));
        }
    }
    lemma_files_from_each(t, start, bundles, changed, count);
    assert(changed.take(count as int) =~= changed);
}

proof fn lemma_file_record_described(
    v: IndexView,
    hash: u64,
    bundle_index: u32,
    offset: u32,
    size: u32,
)
    requires
        v.describes_bytes(),
        v.files.contains_key(hash),
        bundle_index < v.bundles.len(),
    ensures
        with_file_record(v, hash, bundle_index, offset, size).describes_bytes(),
        forall|b: int| #[trigger]
            v.size_pos_valid(b) ==> with_file_record(
                v,
                hash,
                bundle_index,
                offset,
                size,
            ).size_pos_valid(b),
{
    let s = v.raw;
    let p = parsed(s)->Ok_0;
    let n = u32_at(s, 0) as nat;
    let (bundles, pos) = bundles_at(s, n)->Ok_0;
    lemma_bundles_end(s, n);
    assert(bundles == p.bundles);
    let count = u32_at(s, pos) as nat;
    let start = pos + 4;
    let files = files_at(s, start, bundles, count)->Ok_0;
    lemma_files_positions(s, start, bundles, count);
    assert(v.files == by_hash(files));
    let i = lemma_by_hash_last(files, hash);
    let file = files[i];
    assert(Ok::<FileView, IndexError>(files[i]) == file_at(s, start + 20 * i, bundles));
    assert(file.record_pos == start + 20 * i);
    lemma_record_tail_len(bundle_index, offset, size);
    let q = file.record_pos + 8;
    let t = patched(s, q, record_tail(bundle_index, offset, size));
    assert(t.len() == s.len());
    assert(t.subrange(0, 4) =~= s.subrange(0, 4));
    lemma_bundles_prefix(s, t, n);
    assert(t.subrange(pos, pos + 4) =~= s.subrange(pos, pos + 4));
    let moved = FileView {
        bundle_index,
        bundle_name: bundles[bundle_index as int].name,
        offset,
        size,
        ..file
    };
    lemma_record_changed(s, start, bundles, count, i, bundle_index, offset, size);
    lemma_by_hash_update(files, i, moved);
    let changed = files.update(i, moved);
    assert(hashes(changed) =~= hashes(files));
    let dir_pos = start + 20 * count;
    assert(s.subrange(dir_pos, s.len() as int) =~= t.subrange(dir_pos, t.len() as int));
    lemma_rest_agree(s, bundles, pos, t, bundles, pos, changed);
}

proof fn lemma_same_part(s: Seq<u8>, a: int, t: Seq<u8>, b: int, n: int, k: int, len: int)
    requires
        0 <= a,
        0 <= b,
        a + n <= s.len(),
        b + n <= t.len(),
        0 <= k,
        0 <= len,
        k + len <= n,
        s.subrange(a, a + n) == t.subrange(b, b + n),
    ensures
        s.subrange(a + k, a + k + len) == t.subrange(b + k, b + k + len),
{
    assert(s.subrange(a, a + n).subrange(k, k + len) =~= s.subrange(a + k, a + k + len));
    assert(t.subrange(b, b + n).subrange(k, k + len) =~= t.subrange(b + k, b + k + len));
}

/// Directories that have the same bytes are the same.
proof fn lemma_directories_agree(s: Seq<u8>, a: int, t: Seq<u8>, b: int, n: nat)
    requires
        0 <= a,
        0 <= b,
        a + 20 * n <= s.len(),
        b + 20 * n <= t.len(),
        s.subrange(a, a + 20 * n) == t.subrange(b, b + 20 * n),
    ensures
        directories_at(s, a, n) == directories_at(t, b, n),
{
    let left = directories_at(s, a, n);
    let right = directories_at(t, b, n);
    assert forall|i: int| 0 <= i < n implies left[i] == right[i] by {
        lemma_same_part(s, a, t, b, 20 * n as int, 20 * i, 8);
        lemma_same_part(s, a, t, b, 20 * n as int, 20 * i + 8, 4);
        lemma_same_part(s, a, t, b, 20 * n as int, 20 * i + 12, 4);
        lemma_same_part(s, a, t, b, 20 * n as int, 20 * i + 16, 4);
    }
    assert(left =~= right);
}

/// A change of the size of bundle `b` is read back.
proof fn lemma_bundles_resized(s: Seq<u8>, n: nat, b: int, size: u32)
    requires
        s.len() >= 4,
        bundles_at(s, n) is Ok,
        0 <= b < n,
    ensures
        ({
            let (bundles, pos) = bundles_at(s, n)->Ok_0;
            let t = patched(s, bundles[b].size_pos, u32_bytes(size));
            &&& 8 <= bundles[b].size_pos
            &&& bundles[b].size_pos + 4 <= pos
            &&& bundles_at(t, n) == Ok::<(Seq<BundleView>, int), IndexError>(
                (
                    bundles.update(b, BundleView { uncompressed_size: size, ..bundles[b] }),
                    pos,
                ),
            )
        }),
    decreases n,
{
    lemma_int_bytes();
    let m = (n - 1) as nat;
    let (bundles, pos) = bundles_at(s, n)->Ok_0;
    let (before, mid) = bundles_at(s, m)->Ok_0;
    lemma_bundles_end(s, n);
    lemma_bundles_end(s, m);
    let q = bundles[b].size_pos;
    let t = patched(s, q, u32_bytes(size));
    let name_end = mid + 4 + u32_at(s, mid);
    if b == m {
        assert(q == name_end);
        assert(t.len() == s.len());
        assert(forall|k: int| 0 <= k < s.len() && !(q <= k < q + 4) ==> t[k] == s[k]);
        lemma_bundles_prefix(s, t, m);
        assert(t.subrange(mid, mid + 4) =~= s.subrange(mid, mid + 4));
        assert(t.subrange(mid + 4, name_end) =~= s.subrange(mid + 4, name_end));
        assert(t.subrange(name_end, name_end + 4) =~= u32_bytes(size));
        assert(bundles.update(b, BundleView { uncompressed_size: size, ..bundles[b] })
            =~= before.push(BundleView { uncompressed_size: size, ..bundles[b] }));
    } else {
        lemma_bundles_resized(s, m, b, size);
        assert(before[b] == bundles[b]);
        assert(t.len() == s.len());
        assert(forall|k: int| 0 <= k < s.len() && !(q <= k < q + 4) ==> t[k] == s[k]);
        assert(t.subrange(mid, mid + 4) =~= s.subrange(mid, mid + 4));
        assert(t.subrange(mid + 4, name_end) =~= s.subrange(mid + 4, name_end));
        assert(t.subrange(name_end, name_end + 4) =~= s.subrange(name_end, name_end + 4));
        assert(bundles.update(b, BundleView { uncompressed_size: size, ..bundles[b] })
            =~= before.update(b, BundleView { uncompressed_size: size, ..bundles[b] }).push(
            bundles[m as int],
        ));
    }
}

/// Reading a file takes no more of the bundles than their names.
proof fn lemma_file_names_only(s: Seq<u8>, pos: int, a: Seq<BundleView>, b: Seq<BundleView>)
    requires
        a.len() == b.len(),
        forall|i: int| 0 <= i < a.len() ==> (#[trigger] a[i]).name == b[i].name,
    ensures
        file_at(s, pos, a) == file_at(s, pos, b),
{
    if pos + 20 <= s.len() {
        let i = u32_at(s, pos + 8) as int;
        if i < a.len() {
            assert(a[i].name == b[i].name);
        }
    }
}

/// The file records behind bundles of which one has changed its size.
proof fn lemma_records_kept(
    s: Seq<u8>,
    t: Seq<u8>,
    start: int,
    a: Seq<BundleView>,
    b: Seq<BundleView>,
    count: nat,
)
    requires
        0 <= start,
        files_at(s, start, a, count) is Ok,
        a.len() == b.len(),
        forall|i: int| 0 <= i < a.len() ==> (#[trigger] a[i]).name == b[i].name,
        s.len() == t.len(),
        forall|k: int| start <= k < s.len() ==> s[k] == t[k],
    ensures
        files_at(t, start, b, count) == files_at(s, start, a, count),
    decreases count,
{
    if count > 0 {
        lemma_records_kept(s, t, start, a, b, (count - 1) as nat);
        let r = start + 20 * (count - 1);
        assert(file_at(s, r, a) is Ok);
        assert(t.subrange(r, r + 8) =~= s.subrange(r, r + 8));
        assert(t.subrange(r + 8, r + 12) =~= s.subrange(r + 8, r + 12));
        assert(t.subrange(r + 12, r + 16) =~= s.subrange(r + 12, r + 16));
        assert(t.subrange(r + 16, r + 20) =~= s.subrange(r + 16, r + 20));
        lemma_file_names_only(t, r, a, b);
    }
}

proof fn lemma_bundle_size_described(v: IndexView, bundle_index: u32, size: u32)
    requires
        v.describes_bytes(),
        bundle_index < v.bundles.len(),
        v.size_pos_valid(bundle_index as int),
    ensures
        with_bundle_size(v, bundle_index, size).describes_bytes(),
{
    let s = v.raw;
    let p = parsed(s)->Ok_0;
    let n = u32_at(s, 0) as nat;
    let (bundles, pos) = bundles_at(s, n)->Ok_0;
    lemma_bundles_end(s, n);
    let b = bundle_index as int;
    lemma_bundles_resized(s, n, b, size);
    lemma_int_bytes();
    let q = bundles[b].size_pos;
    let t = patched(s, q, u32_bytes(size));
    let resized = bundles.update(b, BundleView { uncompressed_size: size, ..bundles[b] });
    assert(t.len() == s.len());
    assert(t.subrange(0, 4) =~= s.subrange(0, 4));
    assert(t.subrange(pos, pos + 4) =~= s.subrange(pos, pos + 4));
    let count = u32_at(s, pos) as nat;
    let start = pos + 4;
    lemma_records_kept(s, t, start, bundles, resized, count);
    let dir_pos = start + 20 * count;
    assert(s.subrange(dir_pos, s.len() as int) =~= t.subrange(dir_pos, t.len() as int));
    let files = files_at(s, start, bundles, count)->Ok_0;
    lemma_rest_agree(s, bundles, pos, t, resized, pos, files);
    let w = with_bundle_size(v, bundle_index, size);
    assert(w.raw == t);
    assert(parsed(t) == rest_of(t, resized, pos));
    assert(same_bundles(resized, w.bundles));
}

proof fn lemma_custom_names_differ(prefix: Seq<char>, a: nat, b: nat)
    requires
        custom_name(prefix, a) == custom_name(prefix, b),
    ensures
        a == b,
{
    let n = prefix.len() as int;
    assert(custom_name(prefix, a).subrange(n, custom_name(prefix, a).len() as int) =~= decimal(a));
    assert(custom_name(prefix, b).subrange(n, custom_name(prefix, b).len() as int) =~= decimal(b));
    lemma_decimal_injective(a, b);
}

/// Not more names are taken than there are bundles.
proof fn lemma_taken_bounded(bundles: Seq<BundleView>, prefix: Seq<char>, n: nat)
    requires
        forall|k: nat| k < n ==> name_taken(bundles, #[trigger] custom_name(prefix, k)),
    ensures
        n <= bundles.len(),
{
    let names = bundles.map_values(|b: BundleView| b.name);
    let ordinals = vstd::set_lib::set_int_range(0, n as int);
    let f = |k: int| custom_name(prefix, k as nat);
    vstd::set_lib::lemma_int_range(0, n as int);
    let image = ordinals.map(f);
    assert(vstd::relations::injective_on(f, ordinals)) by {
        assert forall|a: int, b: int|
            ordinals.contains(a) && ordinals.contains(b) && #[trigger] f(a) == #[trigger] f(
                b,
            ) implies a == b by {
            lemma_custom_names_differ(prefix, a as nat, b as nat);
        }
    }
    vstd::set_lib::lemma_map_size(ordinals, image, f);
    assert(image.subset_of(names.to_set())) by {
        assert forall|x: Seq<char>| image.contains(x) implies names.to_set().contains(x) by {
            let k = choose|k: int| ordinals.contains(k) && f(k) == x;
            assert(name_taken(bundles, custom_name(prefix, k as nat)));
            let i = choose|i: int|
                0 <= i < bundles.len() && (#[trigger] bundles[i]).name == custom_name(
                    prefix,
                    k as nat,
                );
            assert(names[i] == x);
        }
    }
    vstd::seq_lib::seq_to_set_is_finite(names);
    vstd::set_lib::lemma_len_subset(image, names.to_set());
    names.lemma_cardinality_of_set();
}

impl BundleIndex {
    fn has_bundle_named(&self, name: &str) -> (r: bool)
        ensures
            r == name_taken(self@.bundles, name@),
    {
        let ghost all = self@.bundles;
        let n: usize = self.bundles.len();
        let mut i: usize = 0;
        while i < n
            invariant
                i <= n == self.bundles@.len(),
                all == bundle_views(self.bundles@),
                forall|k: int| 0 <= k < i ==> (#[trigger] all[k]).name != name@,
            decreases n - i,
        {
            assert(all[i as int] == self.bundles@[i as int]@);
            if same_text(self.bundles[i].name.as_str(), name) {
                return true;
            }
            i = i + 1;
        }
        false
    }

    /// The first free name for a bundle of ours.
    fn free_name(&self, name_prefix: &str) -> (r: String)
        ensures
            exists|k: nat|
                is_first_free(self@.bundles, name_prefix@, k) && r@ == #[trigger] custom_name(
                    name_prefix@,
                    k,
                ),
    {
        let n: usize = self.bundles.len();
        let mut ordinal: usize = 0;
        loop
            invariant
                n == self@.bundles.len(),
                ordinal <= n,
                forall|k: nat|
                    k < ordinal ==> name_taken(
                        self@.bundles,
                        #[trigger] custom_name(name_prefix@, k),
                    ),
            decreases n - ordinal,
        {
            let mut chars = chars_of(name_prefix);
            let digits = decimal_chars(ordinal as u64);
            push_chars(&mut chars, digits.as_slice());
            let name = string_of(chars.as_slice());
            assert(name@ == custom_name(name_prefix@, ordinal as nat));
            if !self.has_bundle_named(name.as_str()) {
                assert(is_first_free(self@.bundles, name_prefix@, ordinal as nat));
                return name;
            }
            proof {
                assert forall|k: nat| k < ordinal + 1 implies name_taken(
                    self@.bundles,
                    #[trigger] custom_name(name_prefix@, k),
                ) by {
                    if k == ordinal as nat {
                    }
                }
                lemma_taken_bounded(self@.bundles, name_prefix@, (ordinal + 1) as nat);
            }
            ordinal = ordinal + 1;
        }
    }

    /// Adds an empty bundle with the first free name that starts with
    /// `name_prefix` and ends in a number.
    pub fn create_custom_bundle(&mut self, name_prefix: &str) -> (r: Result<u32, IndexError>)
        requires
            old(self)@.positions_valid(),
        ensures
            exists|k: nat| is_first_free(old(self)@.bundles, name_prefix@, k) && ({
                let name = #[trigger] custom_name(name_prefix@, k);
                match r {
                    Ok(bundle_index) => {
                        &&& old(self)@.bundles.len() < u32::MAX
                        &&& encode_utf8(name).len() <= u32::MAX
                        &&& bundle_index == old(self)@.bundles.len()
                        &&& final(self)@ == with_bundle(old(self)@, name)
                    },
                    Err(e) => {
                        &&& e == IndexError::TooLarge
                        &&& old(self)@.bundles.len() >= u32::MAX || encode_utf8(name).len()
                            > u32::MAX
                        &&& final(self)@ == old(self)@
                    },
                }
            }),
            r is Ok ==> final(self)@.positions_valid() && final(self)@.bundles.last().size_pos + 4
                <= final(self)@.raw.len(),
            old(self)@.describes_bytes() && r is Ok ==> final(self)@.describes_bytes() && final(self)@.size_pos_valid(r->Ok_0 as int),
    {
        let ghost start = self@;
        let name = self.free_name(name_prefix);
        let ghost ordinal = choose|k: nat|
            is_first_free(self@.bundles, name_prefix@, k) && name@ == #[trigger] custom_name(
                name_prefix@,
                k,
            );
        let ghost text = name@;
        assert(text == custom_name(name_prefix@, ordinal));
        let encoded = name.as_str().as_bytes();
        if self.bundles.len() >= 0xffff_ffff || encoded.len() > 0xffff_ffff {
            return Err(IndexError::TooLarge);
        }
        let bundle_index: u32 = self.bundles.len() as u32;
        let mut record: Vec<u8> = Vec::new();
        push_u32(&mut record, encoded.len() as u32);
        push_all(&mut record, encoded);
        let name_end: usize = record.len();
        push_u32(&mut record, 0);
        proof {
            lemma_int_bytes();
            assert(record@ =~= bundle_record(text));
        }
        let delta: usize = record.len();
        let pos: usize = self.file_count_pos;
        let mut grown: Vec<u8> = Vec::new();
        push_all(&mut grown, vstd::slice::slice_subrange(self.raw_decompressed.as_slice(), 0, pos));
        push_all(&mut grown, record.as_slice());
        push_all(
            &mut grown,
            vstd::slice::slice_subrange(
                self.raw_decompressed.as_slice(),
                pos,
                self.raw_decompressed.len(),
            ),
        );
        assert(grown@ =~= start.raw.subrange(0, pos as int) + record@ + start.raw.subrange(
            pos as int,
            start.raw.len() as int,
        ));
        let total: usize = grown.len();
        let mut count_bytes: Vec<u8> = Vec::new();
        push_u32(&mut count_bytes, bundle_index + 1);
        assert(count_bytes@ =~= u32_bytes((start.bundles.len() + 1) as u32));
        overwrite(&mut grown, 0, count_bytes.as_slice());

        let keys = file_hashes(&self.files);
        let n: usize = keys.len();
        let mut files: HashMap<u64, BundleFile> = HashMap::new();
        let mut i: usize = 0;
        let ghost d = delta as int;
        while i < n
            invariant
                i <= n == keys@.len(),
                keys@.to_set() == self.files@.dom(),
                keys@.no_duplicates(),
                start == self@,
                start.positions_valid(),
                d == delta,
                total == start.raw.len() + delta,
                forall|h: u64| #[trigger] files@.contains_key(h) <==> keys@.take(i as int).contains(h),
                forall|h: u64| #[trigger]
                    files@.contains_key(h) ==> files@[h]@ == shifted(self.files@[h]@, d),
            decreases n - i,
        {
            let key: u64 = keys[i];
            assert(keys@.to_set().contains(key));
            match self.files.get(&key) {
                Some(f) => {
                    let mut moved = f.clone();
                    assert(start.files.contains_key(key));
                    assert(start.files[key] == f@);
                    moved.record_pos = f.record_pos + delta;
                    files.insert(key, moved);
                },
                None => {
                    assert(false);
                },
            }
            i = i + 1;
            proof {
                assert(keys@.take(i as int) =~= keys@.take(i - 1).push(key));
                assert forall|h: u64| #[trigger] files@.contains_key(h) <==> keys@.take(
                    i as int,
                ).contains(h) by {
                    let before = keys@.take(i - 1);
                    let after = before.push(key);
                    if h == key {
                        assert(after[i - 1] == key);
                    } else if before.contains(h) {
                        let j = choose|j: int| 0 <= j < before.len() && before[j] == h;
                        assert(after[j] == h);
                    } else if after.contains(h) {
                        let j = choose|j: int| 0 <= j < after.len() && after[j] == h;
                        assert(before[j] == h);
                    }
                }
            }
        }
        proof {
            assert(keys@.take(n as int) =~= keys@);
            assert(file_views(files@) =~= start.files.map_values(|f: FileView| shifted(f, d))) by {
                assert forall|h: u64| files@.contains_key(h) <==> self.files@.contains_key(h) by {
                    assert(files@.contains_key(h) <==> keys@.contains(h));
                    assert(keys@.to_set().contains(h) <==> keys@.contains(h));
                }
            }
        }
        self.raw_decompressed = grown;
        self.files = files;
        self.file_count_pos = pos + delta;
        let info = BundleInfo { name, uncompressed_size: 0, size_pos: pos + name_end };
        let ghost view = info@;
        self.bundles.push(info);
        proof {
            assert(bundle_views(self.bundles@) =~= start.bundles.push(view));
            assert(self@ =~= with_bundle(start, text));
            assert(self@.positions_valid()) by {
                assert forall|h: u64| #[trigger] self@.files.contains_key(h) implies 0
                    <= self@.files[h].record_pos && self@.files[h].record_pos + 20
                    <= self@.raw.len() by {
                    assert(start.files.contains_key(h));
                }
            }
            if start.describes_bytes() {
                lemma_bundle_described(start, text);
            }
        }
        Ok(bundle_index)
    }
}

/// Moving every file by the same distance moves the files in the map.
proof fn lemma_by_hash_shift(files: Seq<FileView>, d: int)
    ensures
        by_hash(files.map_values(|f: FileView| shifted(f, d))) == by_hash(files).map_values(
            |f: FileView| shifted(f, d),
        ),
        hashes(files.map_values(|f: FileView| shifted(f, d))) == hashes(files),
    decreases files.len(),
{
    let moved = files.map_values(|f: FileView| shifted(f, d));
    assert(hashes(moved) =~= hashes(files));
    if files.len() > 0 {
        lemma_by_hash_shift(files.drop_last(), d);
        assert(moved.drop_last() =~= files.drop_last().map_values(|f: FileView| shifted(f, d)));
        assert(by_hash(moved) =~= by_hash(files).map_values(|f: FileView| shifted(f, d)));
    } else {
        assert(by_hash(moved) =~= by_hash(files).map_values(|f: FileView| shifted(f, d)));
    }
}

/// The file records after they have moved and a bundle has been added.
proof fn lemma_records_moved(
    s: Seq<u8>,
    t: Seq<u8>,
    start: int,
    d: int,
    a: Seq<BundleView>,
    b: BundleView,
    count: nat,
)
    requires
        0 <= start,
        0 <= d,
        files_at(s, start, a, count) is Ok,
        t.len() == s.len() + d,
        s.subrange(start, s.len() as int) == t.subrange(start + d, t.len() as int),
    ensures
        files_at(t, start + d, a.push(b), count) == Ok::<Seq<FileView>, IndexError>(
            files_at(s, start, a, count)->Ok_0.map_values(|f: FileView| shifted(f, d)),
        ),
    decreases count,
{
    let files = files_at(s, start, a, count)->Ok_0;
    let moved = files.map_values(|f: FileView| shifted(f, d));
    if count > 0 {
        lemma_records_moved(s, t, start, d, a, b, (count - 1) as nat);
        let k = 20 * (count - 1);
        let r = start + k;
        assert(file_at(s, r, a) is Ok);
        let n = s.len() - start;
        lemma_same_part(s, start, t, start + d, n, k, 8);
        lemma_same_part(s, start, t, start + d, n, k + 8, 4);
        lemma_same_part(s, start, t, start + d, n, k + 12, 4);
        lemma_same_part(s, start, t, start + d, n, k + 16, 4);
        assert(start + d + k + 8 == r + d + 8);
        assert(file_at(t, r + d, a.push(b)) == Ok::<FileView, IndexError>(
            shifted(file_at(s, r, a)->Ok_0, d),
        ));
        let before = files_at(s, start, a, (count - 1) as nat)->Ok_0;
        assert(moved =~= before.map_values(|f: FileView| shifted(f, d)).push(
            shifted(file_at(s, r, a)->Ok_0, d),
        ));
    } else {
        assert(moved =~= Seq::<FileView>::empty());
    }
}

/// The bytes with a record put in at `pos` and another number in front.
proof fn lemma_grown(s: Seq<u8>, pos: int, record: Seq<u8>, number: Seq<u8>)
    requires
        4 <= pos <= s.len(),
        number.len() == 4,
    ensures
        ({
            let grown = s.subrange(0, pos) + record + s.subrange(pos, s.len() as int);
            let t = patched(grown, 0, number);
            let d = record.len();
            &&& t.len() == s.len() + d
            &&& t.subrange(0, 4) == number
            &&& forall|k: int| 4 <= k < pos ==> t[k] == s[k]
            &&& t.subrange(pos, pos + d) == record
            &&& t.subrange(pos + d, t.len() as int) == s.subrange(pos, s.len() as int)
        }),
{
    let grown = s.subrange(0, pos) + record + s.subrange(pos, s.len() as int);
    let t = patched(grown, 0, number);
    let d = record.len();
    assert(t.len() == s.len() + d);
    assert(t.subrange(0, 4) =~= number);
    assert(t.subrange(pos, pos + d) =~= record);
    assert(t.subrange(pos + d, t.len() as int) =~= s.subrange(pos, s.len() as int));
}

/// A bundle record is read back.
proof fn lemma_bundle_record_read(t: Seq<u8>, pos: int, name: Seq<char>)
    requires
        0 <= pos,
        encode_utf8(name).len() <= u32::MAX,
        pos + bundle_record(name).len() <= t.len(),
        t.subrange(pos, pos + bundle_record(name).len()) == bundle_record(name),
    ensures
        bundle_record(name).len() == 8 + encode_utf8(name).len(),
        bundle_at(t, pos) == Ok::<(BundleView, int), IndexError>(
            (
                BundleView {
                    name,
                    uncompressed_size: 0,
                    size_pos: pos + 4 + encode_utf8(name).len(),
                },
                pos + bundle_record(name).len(),
            ),
        ),
{
    lemma_int_bytes();
    let encoded = encode_utf8(name);
    let record = bundle_record(name);
    let d = record.len() as int;
    let e = encoded.len() as int;
    assert(d == 8 + e);
    assert(record.subrange(0, 4) =~= u32_bytes(e as u32));
    assert(record.subrange(4, 4 + e) =~= encoded);
    assert(record.subrange(4 + e, 8 + e) =~= u32_bytes(0));
    assert(t.subrange(pos, pos + 4) =~= t.subrange(pos, pos + d).subrange(0, 4));
    assert(t.subrange(pos + 4, pos + 4 + e) =~= t.subrange(pos, pos + d).subrange(4, 4 + e));
    assert(t.subrange(pos + 4 + e, pos + 8 + e) =~= t.subrange(pos, pos + d).subrange(
        4 + e,
        8 + e,
    ));
    vstd::utf8::encode_utf8_decode_utf8(name);
    vstd::utf8::encode_utf8_valid_utf8(name);
}

/// What follows the bundles after one has been added.
proof fn lemma_rest_grown(
    s: Seq<u8>,
    t: Seq<u8>,
    bundles: Seq<BundleView>,
    b: BundleView,
    pos: int,
    d: int,
)
    requires
        0 <= pos <= s.len(),
        0 <= d,
        rest_of(s, bundles, pos) is Ok,
        t.len() == s.len() + d,
        t.subrange(pos + d, t.len() as int) == s.subrange(pos, s.len() as int),
    ensures
        ({
            let p = rest_of(s, bundles, pos)->Ok_0;
            rest_of(t, bundles.push(b), pos + d) == Ok::<IndexView, IndexError>(
                IndexView {
                    raw: t,
                    bundles: bundles.push(b),
                    files: p.files.map_values(|f: FileView| shifted(f, d)),
                    file_count_pos: pos + d,
                    ..p
                },
            )
        }),
{
    let len = s.len() - pos;
    lemma_same_part(s, pos, t, pos + d, len, 0, 4);
    let count = u32_at(s, pos) as nat;
    lemma_same_part(s, pos, t, pos + d, len, 4, len - 4);
    let files = files_at(s, pos + 4, bundles, count)->Ok_0;
    let moved = files.map_values(|f: FileView| shifted(f, d));
    lemma_records_moved(s, t, pos + 4, d, bundles, b, count);
    lemma_by_hash_shift(files, d);
    let skip = (4 + 20 * count) as int;
    lemma_same_part(s, pos, t, pos + d, len, skip, len - skip);
    lemma_rest_agree(s, bundles, pos, t, bundles.push(b), pos + d, moved);
}

/// The bundles after one has been added.
proof fn lemma_bundles_grown(s: Seq<u8>, t: Seq<u8>, n: nat, name: Seq<char>)
    requires
        s.len() >= 4,
        bundles_at(s, n) is Ok,
        encode_utf8(name).len() <= u32::MAX,
        ({
            let pos = bundles_at(s, n)->Ok_0.1;
            let d = bundle_record(name).len();
            &&& pos + d <= t.len()
            &&& forall|k: int| 4 <= k < pos ==> t[k] == s[k]
            &&& t.subrange(pos, pos + d) == bundle_record(name)
        }),
    ensures
        ({
            let (bundles, pos) = bundles_at(s, n)->Ok_0;
            bundles_at(t, (n + 1) as nat) == Ok::<(Seq<BundleView>, int), IndexError>(
                (
                    bundles.push(
                        BundleView {
                            name,
                            uncompressed_size: 0,
                            size_pos: pos + 4 + encode_utf8(name).len(),
                        },
                    ),
                    pos + bundle_record(name).len(),
                ),
            )
        }),
{
    lemma_bundles_end(s, n);
    lemma_bundles_prefix(s, t, n);
    lemma_bundle_record_read(t, bundles_at(s, n)->Ok_0.1, name);
}

/// What the bytes with one more bundle spell.
proof fn lemma_bundle_parsed(s: Seq<u8>, name: Seq<char>)
    requires
        parsed(s) is Ok,
        parsed(s)->Ok_0.bundles.len() < u32::MAX,
        encode_utf8(name).len() <= u32::MAX,
    ensures
        ({
            let p = parsed(s)->Ok_0;
            let w = with_bundle(p, name);
            parsed(w.raw) == Ok::<IndexView, IndexError>(w)
        }),
{
    let p = parsed(s)->Ok_0;
    let n = u32_at(s, 0) as nat;
    let (bundles, pos) = bundles_at(s, n)->Ok_0;
    lemma_bundles_end(s, n);
    let w = with_bundle(p, name);
    let t = w.raw;
    let number = u32_bytes((n + 1) as u32);
    assert(number.len() == 4 && crate::bytes::le_value(number) == n + 1) by {
        lemma_int_bytes();
    }
    lemma_grown(s, pos, bundle_record(name), number);
    assert(u32_at(t, 0) == n + 1);
    lemma_bundles_grown(s, t, n, name);
    lemma_rest_grown(
        s,
        t,
        bundles,
        BundleView { name, uncompressed_size: 0, size_pos: pos + 4 + encode_utf8(name).len() },
        pos,
        bundle_record(name).len() as int,
    );
}

proof fn lemma_bundle_described(v: IndexView, name: Seq<char>)
    requires
        v.describes_bytes(),
        v.bundles.len() < u32::MAX,
        encode_utf8(name).len() <= u32::MAX,
    ensures
        with_bundle(v, name).describes_bytes(),
        with_bundle(v, name).size_pos_valid(v.bundles.len() as int),
{
    lemma_bundle_parsed(v.raw, name);
    let p = parsed(v.raw)->Ok_0;
    let w = with_bundle(v, name);
    let q = with_bundle(p, name);
    assert(q.raw == w.raw);
    assert(q =~= IndexView { bundles: q.bundles, paths: None, ..w });
    assert(same_bundles(q.bundles, w.bundles));
}

proof fn lemma_by_hash_member(files: Seq<FileView>, hash: u64)
    requires
        by_hash(files).contains_key(hash),
    ensures
        files.contains(by_hash(files)[hash]),
{
    let i = lemma_by_hash_last(files, hash);
    assert(files[i] == by_hash(files)[hash]);
}

/// An index that was read describes the bytes that it was read from, and its
/// positions lie in them.
pub proof fn law_parsed_index_describes_its_bytes(s: Seq<u8>)
    requires
        parsed(s) is Ok,
    ensures
        parsed(s)->Ok_0.raw == s,
        parsed(s)->Ok_0.describes_bytes(),
        parsed(s)->Ok_0.positions_valid(),
        forall|b: int|
            0 <= b < parsed(s)->Ok_0.bundles.len() ==> #[trigger] parsed(s)->Ok_0.size_pos_valid(b),
{
    let p = parsed(s)->Ok_0;
    let n = u32_at(s, 0) as nat;
    let (bundles, pos) = bundles_at(s, n)->Ok_0;
    lemma_bundles_end(s, n);
    let count = u32_at(s, pos) as nat;
    let files = files_at(s, pos + 4, bundles, count)->Ok_0;
    lemma_files_positions(s, pos + 4, bundles, count);
    assert forall|h: u64| #[trigger] p.files.contains_key(h) implies 0 <= p.files[h].record_pos
        && p.files[h].record_pos + 20 <= p.raw.len() by {
        lemma_by_hash_member(files, h);
        let i = choose|i: int| 0 <= i < files.len() && files[i] == p.files[h];
        assert(Ok::<FileView, IndexError>(files[i]) == file_at(s, pos + 4 + 20 * i, bundles));
    }
}

} // verus!
