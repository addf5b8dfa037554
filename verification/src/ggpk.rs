//! Records of the standalone archive `Content.ggpk`.

use crate::bytes::{copy_range, le_at, read_u16_at, read_u32_at, read_u64_at, u32_at, u64_at};
use crate::text::{
    char_range, chars_of, has_prefix, push_chars, same_chars, starts_with, string_of,
};
use crate::utf16::{decode_units, utf16_text};
use vstd::prelude::*;
use vstd::utf8::valid_utf8;

verus! {

/// Why the archive cannot be read or written.
#[derive(Debug, Clone, Copy, PartialEq, Eq, Structural)]
pub enum GgpkError {
    /// The file is too small to be an archive.
    TooSmall,
    /// A record lies outside of the archive.
    OutsideArchive,
    /// A record ends early.
    Truncated,
    /// The tag of a record is not UTF-8.
    TagNotUtf8,
    /// A record has an unknown tag.
    UnsupportedRecord,
    /// A record that should have a name has none.
    NotNamed,
    /// A name is not valid text.
    InvalidName,
    /// A file record ends before its data or beyond the archive.
    InvalidBounds,
    /// The records lead back to themselves.
    RecordCycle,
    /// A number does not fit into its field.
    TooLarge,
    /// The archive has no `Bundles2` folder.
    NoBundlesDir,
    /// Nothing points to the `Bundles2` folder.
    NoParentPointer,
    /// The name of a bundle in the archive holds a slash.
    NameNotFlat,
    /// The `Bundles2` folder has no index.
    NoIndex,
    /// The archive has changed since the patch was prepared.
    ArchiveChanged,
}

/// An archive and how it spells names.
pub struct GgpkArchive<'a> {
    pub bytes: &'a [u8],
    pub utf32_paths: bool,
}

/// Whether the archive spells names in UTF-32: versions 2 and 3 do not, all
/// others do.
pub open spec fn spells_utf32(s: Seq<u8>) -> bool {
    u32_at(s, 8) != 2 && u32_at(s, 8) != 3
}

impl<'a> GgpkArchive<'a> {
    /// The archive that the bytes hold.
    pub fn from_bytes(bytes: &'a [u8]) -> (r: Result<GgpkArchive<'a>, GgpkError>)
        ensures
            match r {
                Ok(a) => bytes@.len() >= 12 && a.bytes@ == bytes@ && a.utf32_paths == spells_utf32(
                    bytes@,
                ),
                Err(e) => bytes@.len() < 12 && e == GgpkError::TooSmall,
            },
    {
        match read_u32_at(bytes, 8) {
            Some(version) => Ok(
                GgpkArchive { bytes, utf32_paths: version != 2 && version != 3 },
            ),
            None => Err(GgpkError::TooSmall),
        }
    }

    /// Whether names are spelled in UTF-32.
    pub fn use_utf32(&self) -> (r: bool)
        ensures
            r == self.utf32_paths,
    {
        self.utf32_paths
    }
}

/// Where the data of a file lies.
#[derive(Debug, Clone, Copy, PartialEq, Eq, Structural)]
pub struct GgpkFileSpan {
    pub begin: usize,
    pub len: usize,
}

pub open spec fn tag_ggpk() -> Seq<u8> {
    seq![71u8, 71u8, 80u8, 75u8]
}

pub open spec fn tag_pdir() -> Seq<u8> {
    seq![80u8, 68u8, 73u8, 82u8]
}

pub open spec fn tag_file() -> Seq<u8> {
    seq![70u8, 73u8, 76u8, 69u8]
}

pub open spec fn tag_free() -> Seq<u8> {
    seq![70u8, 82u8, 69u8, 69u8]
}

/// What a record is.
#[derive(Debug, Clone, Copy, PartialEq, Eq, Structural)]
pub enum RecordTag {
    Ggpk,
    Pdir,
    File,
    Free,
    Other,
}

/// What the four bytes of a tag say.
pub open spec fn tag_of(b: Seq<u8>) -> Result<RecordTag, GgpkError> {
    if b == tag_ggpk() {
        Ok(RecordTag::Ggpk)
    } else if b == tag_pdir() {
        Ok(RecordTag::Pdir)
    } else if b == tag_file() {
        Ok(RecordTag::File)
    } else if b == tag_free() {
        Ok(RecordTag::Free)
    } else if valid_utf8(b) {
        Ok(RecordTag::Other)
    } else {
        Err(GgpkError::TagNotUtf8)
    }
}

fn is_tag(b: &[u8], w: u8, x: u8, y: u8, z: u8) -> (r: bool)
    requires
        b@.len() == 4,
    ensures
        r == (b@ == seq![w, x, y, z]),
{
    let r: bool = b[0] == w && b[1] == x && b[2] == y && b[3] == z;
    proof {
        if r {
            assert(b@ =~= seq![w, x, y, z]);
        }
    }
    r
}

/// What the record at `pos` is.
pub fn read_ggpk_record_tag(s: &[u8], pos: usize) -> (r: Result<RecordTag, GgpkError>)
    requires
        pos + 8 <= s@.len(),
    ensures
        r == tag_of(s@.subrange(pos + 4, pos + 8)),
{
    let total: usize = s.len();
    let b = vstd::slice::slice_subrange(s, pos + 4, pos + 8);
    if is_tag(b, 71, 71, 80, 75) {
        Ok(RecordTag::Ggpk)
    } else if is_tag(b, 80, 68, 73, 82) {
        Ok(RecordTag::Pdir)
    } else if is_tag(b, 70, 73, 76, 69) {
        Ok(RecordTag::File)
    } else if is_tag(b, 70, 82, 69, 69) {
        Ok(RecordTag::Free)
    } else {
        match crate::text::decode_bytes(copy_range(s, pos + 4, pos + 8)) {
            Some(_) => Ok(RecordTag::Other),
            None => Err(GgpkError::TagNotUtf8),
        }
    }
}

/// The characters from `pos` to the zero that ends a name in UTF-32, behind
/// `before`, and where the name ends.
pub open spec fn name32_from(s: Seq<u8>, pos: int, before: Seq<char>) -> Result<
    (Seq<char>, int),
    GgpkError,
>
    decreases s.len() - pos,
{
    if pos < 0 || pos + 4 > s.len() {
        Err(GgpkError::Truncated)
    } else {
        let v = u32_at(s, pos);
        if v == 0 {
            Ok((before, pos + 4))
        } else if v <= 0xD7FF || 0xE000 <= v <= 0x10FFFF {
            name32_from(s, pos + 4, before.push(v as char))
        } else {
            Err(GgpkError::InvalidName)
        }
    }
}

/// The units from `pos` to the zero that ends a name in UTF-16, behind
/// `before`, and where the name ends.
pub open spec fn units_from(s: Seq<u8>, pos: int, before: Seq<u16>) -> Option<(Seq<u16>, int)>
    decreases s.len() - pos,
{
    if pos < 0 || pos + 2 > s.len() {
        None
    } else {
        let v = le_at(s, pos, 2) as u16;
        if v == 0 {
            Some((before, pos + 2))
        } else {
            units_from(s, pos + 2, before.push(v))
        }
    }
}

/// The name at `pos` and where it ends.
pub open spec fn name_at(s: Seq<u8>, pos: int, utf32: bool) -> Result<(Seq<char>, int), GgpkError> {
    if utf32 {
        name32_from(s, pos, Seq::empty())
    } else {
        match units_from(s, pos, Seq::empty()) {
            None => Err(GgpkError::Truncated),
            Some((units, end)) => match utf16_text(units) {
                None => Err(GgpkError::InvalidName),
                Some(t) => Ok((t, end)),
            },
        }
    }
}

/// Reads the name at `pos`; also where it ends.
pub fn read_ggpk_string(s: &[u8], pos: usize, utf32: bool) -> (r: Result<
    (Vec<char>, usize),
    GgpkError,
>)
    ensures
        match r {
            Ok((t, end)) => name_at(s@, pos as int, utf32) == Ok::<(Seq<char>, int), GgpkError>(
                (t@, end as int),
            ) && end <= s@.len(),
            Err(e) => name_at(s@, pos as int, utf32) == Err::<(Seq<char>, int), GgpkError>(e),
        },
{
    let total: usize = s.len();
    if utf32 {
        let mut out: Vec<char> = Vec::new();
        let mut p: usize = pos;
        loop
            invariant
                utf32,
                total == s@.len(),
                pos <= p,
                name32_from(s@, pos as int, Seq::empty()) == name32_from(s@, p as int, out@),
            decreases total - p,
        {
            let v: u32 = match read_u32_at(s, p) {
                Some(v) => v,
                None => return Err(GgpkError::Truncated),
            };
            if v == 0 {
                return Ok((out, p + 4));
            }
            match char::from_u32(v) {
                Some(c) => {
                    proof {
                        vstd::utf8::char_u32_cast(c, v);
                    }
                    out.push(c);
                },
                None => return Err(GgpkError::InvalidName),
            }
            p = p + 4;
        }
    } else {
        let mut units: Vec<u16> = Vec::new();
        let mut p: usize = pos;
        loop
            invariant
                !utf32,
                total == s@.len(),
                pos <= p,
                units_from(s@, pos as int, Seq::empty()) == units_from(s@, p as int, units@),
            decreases total - p,
        {
            let v: u16 = match read_u16_at(s, p) {
                Some(v) => v,
                None => return Err(GgpkError::Truncated),
            };
            if v == 0 {
                return match decode_units(units.as_slice()) {
                    Some(t) => Ok((t, p + 2)),
                    None => Err(GgpkError::InvalidName),
                };
            }
            units.push(v);
            p = p + 2;
        }
    }
}

/// `base/name`, where an empty part adds nothing.
pub open spec fn ggpk_path(base: Seq<char>, name: Seq<char>) -> Seq<char> {
    if base.len() == 0 {
        name
    } else if name.len() == 0 {
        base
    } else {
        base.push('/') + name
    }
}

/// `base/name`, where an empty part adds nothing.
pub fn join_ggpk_path(base: &[char], name: &[char]) -> (r: Vec<char>)
    ensures
        r@ == ggpk_path(base@, name@),
{
    let mut out: Vec<char> = Vec::new();
    push_chars(&mut out, base);
    if base.len() > 0 && name.len() > 0 {
        out.push('/');
    }
    push_chars(&mut out, name);
    assert(out@ =~= ggpk_path(base@, name@));
    out
}

/// Whether `wanted` is `path` or lies below it.
pub open spec fn may_contain(path: Seq<char>, wanted: Seq<char>) -> bool {
    path.len() == 0 || wanted == path || starts_with(wanted, path.push('/'))
}

/// Whether `wanted` is `path` or lies below it.
pub fn path_could_contain(path: &[char], wanted: &[char]) -> (r: bool)
    ensures
        r == may_contain(path@, wanted@),
{
    if path.len() == 0 || same_chars(wanted, path) {
        return true;
    }
    let mut with_slash = char_range(path, 0, path.len());
    assert(with_slash@ =~= path@);
    with_slash.push('/');
    has_prefix(wanted, with_slash.as_slice())
}

/// A bound on how deep records can lie in each other: below each beginning of
/// the wanted path, every place of the archive comes up at most once. Records
/// that lie deeper lead back to themselves.
pub open spec fn depth_bound(archive_len: nat, wanted_len: nat) -> nat {
    archive_len * (wanted_len + 1)
}

fn depth_limit(archive_len: usize, wanted_len: usize) -> (r: u128)
    ensures
        r == depth_bound(archive_len as nat, wanted_len as nat),
{
    assert(0 <= archive_len * (wanted_len + 1) <= u128::MAX) by (nonlinear_arith)
        requires
            archive_len <= u64::MAX,
            wanted_len <= u64::MAX,
    ;
    archive_len as u128 * (wanted_len as u128 + 1)
}

/// The file `wanted` in or below the record at `offset`, whose folder is `base`:
/// where its data begins, and its length.
pub open spec fn file_below(
    s: Seq<u8>,
    utf32: bool,
    offset: int,
    base: Seq<char>,
    wanted: Seq<char>,
    depth: nat,
) -> Result<Option<(int, int)>, GgpkError>
    decreases depth, 0int,
{
    if offset + 8 > s.len() {
        Err(GgpkError::OutsideArchive)
    } else if depth == 0 {
        Err(GgpkError::RecordCycle)
    } else {
        let size = u32_at(s, offset) as int;
        match tag_of(s.subrange(offset + 4, offset + 8)) {
            Err(e) => Err(e),
            Ok(RecordTag::Ggpk) => if offset + 12 > s.len() {
                Err(GgpkError::Truncated)
            } else {
                let count = if size < 12 {
                    0
                } else {
                    (size - 12) / 8
                };
                file_in_children(
                    s,
                    utf32,
                    offset + 12,
                    8,
                    0,
                    count,
                    base,
                    wanted,
                    (depth - 1) as nat,
                )
            },
            Ok(RecordTag::Pdir) => if offset + 16 > s.len() {
                Err(GgpkError::Truncated)
            } else {
                match name_at(s, offset + 48, utf32) {
                    Err(e) => Err(e),
                    Ok((name, end)) => {
                        let path = ggpk_path(base, name);
                        if !may_contain(path, wanted) {
                            Ok(None)
                        } else {
                            file_in_children(
                                s,
                                utf32,
                                end + 4,
                                12,
                                0,
                                u32_at(s, offset + 12) as int,
                                path,
                                wanted,
                                (depth - 1) as nat,
                            )
                        }
                    },
                }
            },
            Ok(RecordTag::File) => if offset + 12 > s.len() {
                Err(GgpkError::Truncated)
            } else {
                match name_at(s, offset + 44, utf32) {
                    Err(e) => Err(e),
                    Ok((name, end)) => if ggpk_path(base, name) != wanted {
                        Ok(None)
                    } else if offset + size < end || offset + size > s.len() {
                        Err(GgpkError::InvalidBounds)
                    } else {
                        Ok(Some((end, offset + size - end)))
                    },
                }
            },
            Ok(RecordTag::Free) => Ok(None),
            Ok(RecordTag::Other) => Err(GgpkError::UnsupportedRecord),
        }
    }
}

/// The file `wanted` below the children from `i` on, whose offsets stand from
/// `pos` on, one every `stride` bytes.
pub open spec fn file_in_children(
    s: Seq<u8>,
    utf32: bool,
    pos: int,
    stride: int,
    i: int,
    n: int,
    base: Seq<char>,
    wanted: Seq<char>,
    depth: nat,
) -> Result<Option<(int, int)>, GgpkError>
    decreases depth, 1 + n - i,
{
    if i >= n {
        Ok(None)
    } else if pos + stride * i + 8 > s.len() {
        Err(GgpkError::Truncated)
    } else {
        match file_below(s, utf32, u64_at(s, pos + stride * i) as int, base, wanted, depth) {
            Err(e) => Err(e),
            Ok(Some(span)) => Ok(Some(span)),
            Ok(None) => file_in_children(s, utf32, pos, stride, i + 1, n, base, wanted, depth),
        }
    }
}

/// The file `wanted` in the archive.
pub open spec fn file_in(s: Seq<u8>, utf32: bool, wanted: Seq<char>) -> Result<
    Option<(int, int)>,
    GgpkError,
> {
    file_below(s, utf32, 0, Seq::empty(), wanted, depth_bound(s.len(), wanted.len()))
}

pub open spec fn span_view(span: Option<GgpkFileSpan>) -> Option<(int, int)> {
    match span {
        Some(s) => Some((s.begin as int, s.len as int)),
        None => None,
    }
}

fn find_record(
    ggpk: &GgpkArchive,
    offset: u64,
    base: &[char],
    wanted: &[char],
    depth: u128,
) -> (r: Result<Option<GgpkFileSpan>, GgpkError>)
    ensures
        match r {
            Ok(span) => file_below(
                ggpk.bytes@,
                ggpk.utf32_paths,
                offset as int,
                base@,
                wanted@,
                depth as nat,
            ) == Ok::<Option<(int, int)>, GgpkError>(span_view(span)),
            Err(e) => file_below(
                ggpk.bytes@,
                ggpk.utf32_paths,
                offset as int,
                base@,
                wanted@,
                depth as nat,
            ) == Err::<Option<(int, int)>, GgpkError>(e),
        },
    decreases depth, 0int,
{
    let s = ggpk.bytes;
    let total: usize = s.len();
    if total < 8 || offset > (total - 8) as u64 {
        return Err(GgpkError::OutsideArchive);
    }
    if depth == 0 {
        return Err(GgpkError::RecordCycle);
    }
    let at: usize = offset as usize;
    let size: u32 = match read_u32_at(s, at) {
        Some(v) => v,
        None => return Err(GgpkError::Truncated),
    };
    match read_ggpk_record_tag(s, at) {
        Err(e) => Err(e),
        Ok(RecordTag::Ggpk) => {
            if total - at < 12 {
                return Err(GgpkError::Truncated);
            }
            let count: u32 = if size < 12 {
                0
            } else {
                (size - 12) / 8
            };
            find_in_children(ggpk, at + 12, 8, count, base, wanted, depth - 1)
        },
        Ok(RecordTag::Pdir) => {
            if total - at < 16 {
                return Err(GgpkError::Truncated);
            }
            let entries: u32 = match read_u32_at(s, at + 12) {
                Some(v) => v,
                None => return Err(GgpkError::Truncated),
            };
            if total - at < 48 {
                proof {
                    lemma_name_beyond(s@, at + 48, ggpk.utf32_paths);
                }
                return Err(GgpkError::Truncated);
            }
            let (name, end) = match read_ggpk_string(s, at + 48, ggpk.use_utf32()) {
                Ok(v) => v,
                Err(e) => return Err(e),
            };
            let path = join_ggpk_path(base, name.as_slice());
            if !path_could_contain(path.as_slice(), wanted) {
                return Ok(None);
            }
            if total - end < 4 {
                if entries == 0 {
                    return Ok(None);
                }
                return Err(GgpkError::Truncated);
            }
            find_in_children(ggpk, end + 4, 12, entries, path.as_slice(), wanted, depth - 1)
        },
        Ok(RecordTag::File) => {
            if total - at < 44 {
                proof {
                    lemma_name_beyond(s@, at + 44, ggpk.utf32_paths);
                }
                return Err(GgpkError::Truncated);
            }
            let (name, end) = match read_ggpk_string(s, at + 44, ggpk.use_utf32()) {
                Ok(v) => v,
                Err(e) => return Err(e),
            };
            let path = join_ggpk_path(base, name.as_slice());
            if !same_chars(path.as_slice(), wanted) {
                return Ok(None);
            }
            if size as usize > total - at || at + (size as usize) < end {
                return Err(GgpkError::InvalidBounds);
            }
            Ok(Some(GgpkFileSpan { begin: end, len: at + size as usize - end }))
        },
        Ok(RecordTag::Free) => Ok(None),
        Ok(RecordTag::Other) => Err(GgpkError::UnsupportedRecord),
    }
}

proof fn lemma_name_beyond(s: Seq<u8>, pos: int, utf32: bool)
    requires
        pos > s.len(),
    ensures
        name_at(s, pos, utf32) == Err::<(Seq<char>, int), GgpkError>(GgpkError::Truncated),
{
}

fn find_in_children(
    ggpk: &GgpkArchive,
    pos: usize,
    stride: u32,
    n: u32,
    base: &[char],
    wanted: &[char],
    depth: u128,
) -> (r: Result<Option<GgpkFileSpan>, GgpkError>)
    requires
        pos <= ggpk.bytes@.len(),
        8 <= stride <= 12,
    ensures
        match r {
            Ok(span) => file_in_children(
                ggpk.bytes@,
                ggpk.utf32_paths,
                pos as int,
                stride as int,
                0,
                n as int,
                base@,
                wanted@,
                depth as nat,
            ) == Ok::<Option<(int, int)>, GgpkError>(span_view(span)),
            Err(e) => file_in_children(
                ggpk.bytes@,
                ggpk.utf32_paths,
                pos as int,
                stride as int,
                0,
                n as int,
                base@,
                wanted@,
                depth as nat,
            ) == Err::<Option<(int, int)>, GgpkError>(e),
        },
    decreases depth, 1int,
{
    let s = ggpk.bytes;
    let total: usize = s.len();
    let mut i: u32 = 0;
    let mut p: usize = pos;
    while i < n
        invariant
            i <= n,
            s@ == ggpk.bytes@,
            total == s@.len(),
            p == pos + stride * i,
            8 <= stride <= 12,
            p <= total,
            file_in_children(
                s@,
                ggpk.utf32_paths,
                pos as int,
                stride as int,
                0,
                n as int,
                base@,
                wanted@,
                depth as nat,
            ) == file_in_children(
                s@,
                ggpk.utf32_paths,
                pos as int,
                stride as int,
                i as int,
                n as int,
                base@,
                wanted@,
                depth as nat,
            ),
        decreases n - i,
    {
        let child: u64 = match read_u64_at(s, p) {
            Some(v) => v,
            None => return Err(GgpkError::Truncated),
        };
        match find_record(ggpk, child, base, wanted, depth) {
            Err(e) => return Err(e),
            Ok(Some(span)) => return Ok(Some(span)),
            Ok(None) => {},
        }
        assert(stride * (i + 1) == stride * i + stride) by (nonlinear_arith);
        i = i + 1;
        if total - p < stride as usize {
            if i < n {
                return Err(GgpkError::Truncated);
            }
            return Ok(None);
        }
        p = p + stride as usize;
    }
    Ok(None)
}

/// The file `wanted` in the archive.
pub fn ggpk_find_file(ggpk: &GgpkArchive, wanted: &str) -> (r: Result<
    Option<GgpkFileSpan>,
    GgpkError,
>)
    ensures
        match r {
            Ok(span) => file_in(ggpk.bytes@, ggpk.utf32_paths, wanted@) == Ok::<
                Option<(int, int)>,
                GgpkError,
            >(span_view(span)),
            Err(e) => file_in(ggpk.bytes@, ggpk.utf32_paths, wanted@) == Err::<
                Option<(int, int)>,
                GgpkError,
            >(e),
        },
{
    let chars = chars_of(wanted);
    let depth: u128 = depth_limit(ggpk.bytes.len(), chars.len());
    let base: Vec<char> = Vec::new();
    assert(base@ =~= Seq::<char>::empty());
    find_record(ggpk, 0, base.as_slice(), chars.as_slice(), depth)
}

/// A folder record.
pub struct GgpkPdirRecord {
    pub name: String,
    pub offset: u64,
    pub digest: Vec<u8>,
    pub entries: Vec<GgpkPdirEntry>,
    /// Where the offset of the record stands, but for that of the first record.
    pub parent_offset_pos: Option<u64>,
}

/// What a folder record says of one thing in the folder.
pub struct GgpkPdirEntry {
    pub name: String,
    pub name_hash: u32,
    pub offset: u64,
}

/// What a `GgpkPdirEntry` says.
pub struct EntryView {
    pub name: Seq<char>,
    pub name_hash: u32,
    pub offset: u64,
}

impl View for GgpkPdirEntry {
    type V = EntryView;

    open spec fn view(&self) -> EntryView {
        EntryView { name: self.name@, name_hash: self.name_hash, offset: self.offset }
    }
}

pub open spec fn entry_views(v: Seq<GgpkPdirEntry>) -> Seq<EntryView> {
    v.map_values(|e: GgpkPdirEntry| e@)
}

/// What a `GgpkPdirRecord` says.
pub struct PdirView {
    pub name: Seq<char>,
    pub offset: int,
    pub digest: Seq<u8>,
    pub entries: Seq<EntryView>,
    pub parent_offset_pos: Option<int>,
}

pub open spec fn opt_int(v: Option<u64>) -> Option<int> {
    match v {
        Some(v) => Some(v as int),
        None => None,
    }
}

impl View for GgpkPdirRecord {
    type V = PdirView;

    open spec fn view(&self) -> PdirView {
        PdirView {
            name: self.name@,
            offset: self.offset as int,
            digest: self.digest@,
            entries: entry_views(self.entries@),
            parent_offset_pos: opt_int(self.parent_offset_pos),
        }
    }
}

pub open spec fn pdir_view(v: Option<GgpkPdirRecord>) -> Option<PdirView> {
    match v {
        Some(p) => Some(p@),
        None => None,
    }
}

/// The name of the record at `offset`.
pub open spec fn record_name(s: Seq<u8>, utf32: bool, offset: int) -> Result<
    Seq<char>,
    GgpkError,
> {
    if offset + 16 > s.len() {
        Err(GgpkError::OutsideArchive)
    } else {
        match tag_of(s.subrange(offset + 4, offset + 8)) {
            Err(e) => Err(e),
            Ok(RecordTag::Pdir) => match name_at(s, offset + 48, utf32) {
                Err(e) => Err(e),
                Ok((name, _)) => Ok(name),
            },
            Ok(RecordTag::File) => match name_at(s, offset + 44, utf32) {
                Err(e) => Err(e),
                Ok((name, _)) => Ok(name),
            },
            Ok(_) => Err(GgpkError::NotNamed),
        }
    }
}

/// The first `n` entries of a folder record, from `pos` on.
pub open spec fn entries_at(s: Seq<u8>, utf32: bool, pos: int, n: nat) -> Result<
    Seq<EntryView>,
    GgpkError,
>
    decreases n,
{
    if n == 0 {
        Ok(Seq::empty())
    } else {
        match entries_at(s, utf32, pos, (n - 1) as nat) {
            Err(e) => Err(e),
            Ok(before) => {
                let p = pos + 12 * (n - 1);
                if p + 12 > s.len() {
                    Err(GgpkError::Truncated)
                } else {
                    let offset = u64_at(s, p + 4);
                    match record_name(s, utf32, offset as int) {
                        Err(e) => Err(e),
                        Ok(name) => Ok(
                            before.push(EntryView { name, name_hash: u32_at(s, p), offset }),
                        ),
                    }
                }
            },
        }
    }
}

/// The folder `wanted` in or below the record at `offset`, whose folder is `base`
/// and whose offset stands at `parent`.
pub open spec fn pdir_below(
    s: Seq<u8>,
    utf32: bool,
    offset: int,
    base: Seq<char>,
    wanted: Seq<char>,
    parent: Option<int>,
    depth: nat,
) -> Result<Option<PdirView>, GgpkError>
    decreases depth, 0int,
{
    if offset + 8 > s.len() {
        Err(GgpkError::OutsideArchive)
    } else if depth == 0 {
        Err(GgpkError::RecordCycle)
    } else {
        let size = u32_at(s, offset) as int;
        match tag_of(s.subrange(offset + 4, offset + 8)) {
            Err(e) => Err(e),
            Ok(RecordTag::Ggpk) => if offset + 12 > s.len() {
                Err(GgpkError::Truncated)
            } else {
                let count = if size < 12 {
                    0
                } else {
                    (size - 12) / 8
                };
                pdir_in_children(
                    s,
                    utf32,
                    offset + 12,
                    8,
                    0,
                    count,
                    base,
                    wanted,
                    (depth - 1) as nat,
                )
            },
            Ok(RecordTag::Pdir) => if offset + 16 > s.len() {
                Err(GgpkError::Truncated)
            } else {
                match name_at(s, offset + 48, utf32) {
                    Err(e) => Err(e),
                    Ok((name, end)) => {
                        let path = ggpk_path(base, name);
                        let count = u32_at(s, offset + 12);
                        if path == wanted {
                            match entries_at(s, utf32, end, count as nat) {
                                Err(e) => Err(e),
                                Ok(entries) => Ok(
                                    Some(
                                        PdirView {
                                            name,
                                            offset,
                                            digest: s.subrange(offset + 16, offset + 48),
                                            entries,
                                            parent_offset_pos: parent,
                                        },
                                    ),
                                ),
                            }
                        } else if !may_contain(path, wanted) {
                            Ok(None)
                        } else {
                            pdir_in_children(
                                s,
                                utf32,
                                end + 4,
                                12,
                                0,
                                count as int,
                                path,
                                wanted,
                                (depth - 1) as nat,
                            )
                        }
                    },
                }
            },
            Ok(RecordTag::File) => Ok(None),
            Ok(RecordTag::Free) => Ok(None),
            Ok(RecordTag::Other) => Err(GgpkError::UnsupportedRecord),
        }
    }
}

/// The folder `wanted` below the children from `i` on, whose offsets stand from
/// `pos` on, one every `stride` bytes.
pub open spec fn pdir_in_children(
    s: Seq<u8>,
    utf32: bool,
    pos: int,
    stride: int,
    i: int,
    n: int,
    base: Seq<char>,
    wanted: Seq<char>,
    depth: nat,
) -> Result<Option<PdirView>, GgpkError>
    decreases depth, 1 + n - i,
{
    if i >= n {
        Ok(None)
    } else {
        let p = pos + stride * i;
        if p + 8 > s.len() {
            Err(GgpkError::Truncated)
        } else {
            match pdir_below(s, utf32, u64_at(s, p) as int, base, wanted, Some(p), depth) {
                Err(e) => Err(e),
                Ok(Some(record)) => Ok(Some(record)),
                Ok(None) => pdir_in_children(s, utf32, pos, stride, i + 1, n, base, wanted, depth),
            }
        }
    }
}

/// The folder `wanted` in the archive.
pub open spec fn pdir_in(s: Seq<u8>, utf32: bool, wanted: Seq<char>) -> Result<
    Option<PdirView>,
    GgpkError,
> {
    pdir_below(s, utf32, 0, Seq::empty(), wanted, None, depth_bound(s.len(), wanted.len()))
}

/// The name of the record at `offset`.
pub fn ggpk_record_name(ggpk: &GgpkArchive, offset: u64) -> (r: Result<Vec<char>, GgpkError>)
    ensures
        match r {
            Ok(name) => record_name(ggpk.bytes@, ggpk.utf32_paths, offset as int) == Ok::<
                Seq<char>,
                GgpkError,
            >(name@),
            Err(e) => record_name(ggpk.bytes@, ggpk.utf32_paths, offset as int) == Err::<
                Seq<char>,
                GgpkError,
            >(e),
        },
{
    let s = ggpk.bytes;
    let total: usize = s.len();
    if total < 16 || offset > (total - 16) as u64 {
        return Err(GgpkError::OutsideArchive);
    }
    let at: usize = offset as usize;
    match read_ggpk_record_tag(s, at) {
        Err(e) => Err(e),
        Ok(RecordTag::Pdir) => {
            if total - at < 48 {
                proof {
                    lemma_name_beyond(s@, at + 48, ggpk.utf32_paths);
                }
                return Err(GgpkError::Truncated);
            }
            match read_ggpk_string(s, at + 48, ggpk.use_utf32()) {
                Ok((name, _)) => Ok(name),
                Err(e) => Err(e),
            }
        },
        Ok(RecordTag::File) => {
            if total - at < 44 {
                proof {
                    lemma_name_beyond(s@, at + 44, ggpk.utf32_paths);
                }
                return Err(GgpkError::Truncated);
            }
            match read_ggpk_string(s, at + 44, ggpk.use_utf32()) {
                Ok((name, _)) => Ok(name),
                Err(e) => Err(e),
            }
        },
        Ok(_) => Err(GgpkError::NotNamed),
    }
}

proof fn lemma_entries_error_stays(s: Seq<u8>, utf32: bool, pos: int, i: nat, n: nat)
    requires
        i <= n,
        entries_at(s, utf32, pos, i) is Err,
    ensures
        entries_at(s, utf32, pos, n) == entries_at(s, utf32, pos, i),
    decreases n,
{
    if i < n {
        lemma_entries_error_stays(s, utf32, pos, i, (n - 1) as nat);
    }
}

fn read_entries(ggpk: &GgpkArchive, pos: usize, n: u32) -> (r: Result<
    Vec<GgpkPdirEntry>,
    GgpkError,
>)
    requires
        pos <= ggpk.bytes@.len(),
    ensures
        match r {
            Ok(v) => entries_at(ggpk.bytes@, ggpk.utf32_paths, pos as int, n as nat) == Ok::<
                Seq<EntryView>,
                GgpkError,
            >(entry_views(v@)),
            Err(e) => entries_at(ggpk.bytes@, ggpk.utf32_paths, pos as int, n as nat) == Err::<
                Seq<EntryView>,
                GgpkError,
            >(e),
        },
{
    let s = ggpk.bytes;
    let total: usize = s.len();
    let mut out: Vec<GgpkPdirEntry> = Vec::new();
    let mut p: usize = pos;
    let mut i: u32 = 0;
    assert(entry_views(out@) =~= Seq::<EntryView>::empty());
    while i < n
        invariant
            i <= n,
            s@ == ggpk.bytes@,
            total == s@.len(),
            p == pos + 12 * i,
            p <= total,
            entries_at(s@, ggpk.utf32_paths, pos as int, i as nat) == Ok::<
                Seq<EntryView>,
                GgpkError,
            >(entry_views(out@)),
        decreases n - i,
    {
        proof {
            if entries_at(s@, ggpk.utf32_paths, pos as int, (i + 1) as nat) is Err {
                lemma_entries_error_stays(
                    s@,
                    ggpk.utf32_paths,
                    pos as int,
                    (i + 1) as nat,
                    n as nat,
                );
            }
        }
        if total - p < 12 {
            return Err(GgpkError::Truncated);
        }
        match (read_u32_at(s, p), read_u64_at(s, p + 4)) {
            (Some(name_hash), Some(offset)) => {
                let name = match ggpk_record_name(ggpk, offset) {
                    Ok(v) => v,
                    Err(e) => return Err(e),
                };
                let entry = GgpkPdirEntry { name: string_of(name.as_slice()), name_hash, offset };
                let ghost before = out@;
                let ghost view = entry@;
                out.push(entry);
                assert(entry_views(out@) =~= entry_views(before).push(view));
            },
            _ => return Err(GgpkError::Truncated),
        }
        p = p + 12;
        i = i + 1;
    }
    Ok(out)
}

fn find_pdir_record(
    ggpk: &GgpkArchive,
    offset: u64,
    base: &[char],
    wanted: &[char],
    parent_offset_pos: Option<u64>,
    depth: u128,
) -> (r: Result<Option<GgpkPdirRecord>, GgpkError>)
    ensures
        match r {
            Ok(record) => pdir_below(
                ggpk.bytes@,
                ggpk.utf32_paths,
                offset as int,
                base@,
                wanted@,
                opt_int(parent_offset_pos),
                depth as nat,
            ) == Ok::<Option<PdirView>, GgpkError>(pdir_view(record)),
            Err(e) => pdir_below(
                ggpk.bytes@,
                ggpk.utf32_paths,
                offset as int,
                base@,
                wanted@,
                opt_int(parent_offset_pos),
                depth as nat,
            ) == Err::<Option<PdirView>, GgpkError>(e),
        },
    decreases depth, 0int,
{
    let s = ggpk.bytes;
    let total: usize = s.len();
    if total < 8 || offset > (total - 8) as u64 {
        return Err(GgpkError::OutsideArchive);
    }
    if depth == 0 {
        return Err(GgpkError::RecordCycle);
    }
    let at: usize = offset as usize;
    let size: u32 = match read_u32_at(s, at) {
        Some(v) => v,
        None => return Err(GgpkError::Truncated),
    };
    match read_ggpk_record_tag(s, at) {
        Err(e) => Err(e),
        Ok(RecordTag::Ggpk) => {
            if total - at < 12 {
                return Err(GgpkError::Truncated);
            }
            let count: u32 = if size < 12 {
                0
            } else {
                (size - 12) / 8
            };
            find_pdir_in_children(ggpk, at + 12, 8, count, base, wanted, depth - 1)
        },
        Ok(RecordTag::Pdir) => {
            if total - at < 16 {
                return Err(GgpkError::Truncated);
            }
            let entries: u32 = match read_u32_at(s, at + 12) {
                Some(v) => v,
                None => return Err(GgpkError::Truncated),
            };
            if total - at < 48 {
                proof {
                    lemma_name_beyond(s@, at + 48, ggpk.utf32_paths);
                }
                return Err(GgpkError::Truncated);
            }
            let (name, end) = match read_ggpk_string(s, at + 48, ggpk.use_utf32()) {
                Ok(v) => v,
                Err(e) => return Err(e),
            };
            let path = join_ggpk_path(base, name.as_slice());
            if same_chars(path.as_slice(), wanted) {
                return match read_entries(ggpk, end, entries) {
                    Ok(list) => Ok(
                        Some(
                            GgpkPdirRecord {
                                name: string_of(name.as_slice()),
                                offset,
                                digest: copy_range(s, at + 16, at + 48),
                                entries: list,
                                parent_offset_pos,
                            },
                        ),
                    ),
                    Err(e) => Err(e),
                };
            }
            if !path_could_contain(path.as_slice(), wanted) {
                return Ok(None);
            }
            if total - end < 4 {
                if entries == 0 {
                    return Ok(None);
                }
                return Err(GgpkError::Truncated);
            }
            find_pdir_in_children(ggpk, end + 4, 12, entries, path.as_slice(), wanted, depth - 1)
        },
        Ok(RecordTag::File) => Ok(None),
        Ok(RecordTag::Free) => Ok(None),
        Ok(RecordTag::Other) => Err(GgpkError::UnsupportedRecord),
    }
}

fn find_pdir_in_children(
    ggpk: &GgpkArchive,
    pos: usize,
    stride: u32,
    n: u32,
    base: &[char],
    wanted: &[char],
    depth: u128,
) -> (r: Result<Option<GgpkPdirRecord>, GgpkError>)
    requires
        pos <= ggpk.bytes@.len(),
        8 <= stride <= 12,
    ensures
        match r {
            Ok(record) => pdir_in_children(
                ggpk.bytes@,
                ggpk.utf32_paths,
                pos as int,
                stride as int,
                0,
                n as int,
                base@,
                wanted@,
                depth as nat,
            ) == Ok::<Option<PdirView>, GgpkError>(pdir_view(record)),
            Err(e) => pdir_in_children(
                ggpk.bytes@,
                ggpk.utf32_paths,
                pos as int,
                stride as int,
                0,
                n as int,
                base@,
                wanted@,
                depth as nat,
            ) == Err::<Option<PdirView>, GgpkError>(e),
        },
    decreases depth, 1int,
{
    let s = ggpk.bytes;
    let total: usize = s.len();
    let mut i: u32 = 0;
    let mut p: usize = pos;
    while i < n
        invariant
            i <= n,
            s@ == ggpk.bytes@,
            total == s@.len(),
            p == pos + stride * i,
            8 <= stride <= 12,
            p <= total,
            pdir_in_children(
                s@,
                ggpk.utf32_paths,
                pos as int,
                stride as int,
                0,
                n as int,
                base@,
                wanted@,
                depth as nat,
            ) == pdir_in_children(
                s@,
                ggpk.utf32_paths,
                pos as int,
                stride as int,
                i as int,
                n as int,
                base@,
                wanted@,
                depth as nat,
            ),
        decreases n - i,
    {
        let child: u64 = match read_u64_at(s, p) {
            Some(v) => v,
            None => return Err(GgpkError::Truncated),
        };
        match find_pdir_record(ggpk, child, base, wanted, Some(p as u64), depth) {
            Err(e) => return Err(e),
            Ok(Some(record)) => return Ok(Some(record)),
            Ok(None) => {},
        }
        assert(stride * (i + 1) == stride * i + stride) by (nonlinear_arith);
        i = i + 1;
        if total - p < stride as usize {
            if i < n {
                return Err(GgpkError::Truncated);
            }
            return Ok(None);
        }
        p = p + stride as usize;
    }
    Ok(None)
}

/// The folder `wanted` in the archive.
pub fn ggpk_find_pdir(ggpk: &GgpkArchive, wanted: &str) -> (r: Result<
    Option<GgpkPdirRecord>,
    GgpkError,
>)
    ensures
        match r {
            Ok(record) => pdir_in(ggpk.bytes@, ggpk.utf32_paths, wanted@) == Ok::<
                Option<PdirView>,
                GgpkError,
            >(pdir_view(record)),
            Err(e) => pdir_in(ggpk.bytes@, ggpk.utf32_paths, wanted@) == Err::<
                Option<PdirView>,
                GgpkError,
            >(e),
        },
{
    let chars = chars_of(wanted);
    let depth: u128 = depth_limit(ggpk.bytes.len(), chars.len());
    let base: Vec<char> = Vec::new();
    assert(base@ =~= Seq::<char>::empty());
    find_pdir_record(ggpk, 0, base.as_slice(), chars.as_slice(), None, depth)
}

} // verus!
