use vstd::bytes::*;
use vstd::prelude::*;
use vstd::slice::{slice_subrange, slice_to_vec};
use vstd::utf8::{decode_utf8, encode_scalar, encode_utf8, valid_utf8};

use crate::error::ArchiveError;
use crate::file::{ARCHIVE_HEAD_SIZE, FileInfo, FileView, METADATA_SIZE, Metadata, views};
use crate::text::string_from_utf8;

verus! {

broadcast use {vstd::seq::group_seq_axioms, vstd::slice::group_slice_axioms};

/// The byte `/`, which separates path components.
pub const SLASH: u8 = 0x2f;

/// The byte `.`.
pub const DOT: u8 = 0x2e;

/// The little-endian `u32` at `off`, where the archive holds one there.
pub open spec fn spec_read_u32(a: Seq<u8>, off: int) -> Option<u32> {
    if 0 <= off && off + 4 <= a.len() {
        Some(spec_u32_from_le_bytes(a.subrange(off, off + 4)))
    } else {
        None
    }
}

/// The little-endian `u64` at `off`, where the archive holds one there.
pub open spec fn spec_read_u64(a: Seq<u8>, off: int) -> Option<u64> {
    if 0 <= off && off + 8 <= a.len() {
        Some(spec_u64_from_le_bytes(a.subrange(off, off + 8)))
    } else {
        None
    }
}

/// The metadata record at `off`, where the archive holds all of it.
pub open spec fn spec_read_metadata(a: Seq<u8>, off: int) -> Option<Metadata> {
    if 0 <= off && off + 48 <= a.len() {
        Some(
            Metadata {
                files_number: spec_u64_from_le_bytes(a.subrange(off, off + 8)),
                path_offset: spec_u64_from_le_bytes(a.subrange(off + 8, off + 16)),
                path_size: spec_u32_from_le_bytes(a.subrange(off + 16, off + 20)),
                content_offset: spec_u64_from_le_bytes(a.subrange(off + 20, off + 28)),
                content_size: spec_u64_from_le_bytes(a.subrange(off + 28, off + 36)),
                name_offset: spec_u64_from_le_bytes(a.subrange(off + 36, off + 44)),
                name_size: spec_u32_from_le_bytes(a.subrange(off + 44, off + 48)),
            },
        )
    } else {
        None
    }
}

/// The `size` bytes at `offset`, or why they cannot be had.
pub open spec fn spec_read_bytes(a: Seq<u8>, offset: u64, size: u64) -> Result<Seq<u8>, ArchiveError> {
    if offset > usize::MAX {
        Err(ArchiveError::OffsetTooLarge)
    } else if size > usize::MAX {
        Err(ArchiveError::SizeTooLarge)
    } else if offset + size > usize::MAX {
        Err(ArchiveError::RangeOverflow)
    } else if offset + size > a.len() {
        Err(ArchiveError::UnexpectedEof)
    } else {
        Ok(a.subrange(offset as int, offset + size))
    }
}

/// A `..` component starts at byte `i` of the path `b`.
pub open spec fn parent_component_at(b: Seq<u8>, i: int) -> bool {
    &&& 0 <= i
    &&& i + 2 <= b.len()
    &&& (i == 0 || b[i - 1] == SLASH)
    &&& b[i] == DOT
    &&& b[i + 1] == DOT
    &&& (i + 2 == b.len() || b[i + 2] == SLASH)
}

/// The path `b` is absolute or has a `..` component.
pub open spec fn path_escapes(b: Seq<u8>) -> bool {
    ||| (b.len() > 0 && b[0] == SLASH)
    ||| exists|i: int| parent_component_at(b, i)
}

/// Whether a path read from an archive may be restored under an output
/// directory: it must be non-empty, relative, and free of `..` components
/// (components separated by `/`).
pub open spec fn spec_check_path(p: Seq<char>) -> Result<(), ArchiveError> {
    if p.len() == 0 {
        Err(ArchiveError::EmptyPath)
    } else if path_escapes(encode_utf8(p)) {
        Err(ArchiveError::PathEscapes)
    } else {
        Ok(())
    }
}

/// The offset of metadata record `k`.
pub open spec fn record_offset(k: int) -> int {
    ARCHIVE_HEAD_SIZE + k * METADATA_SIZE
}

/// The first `k` of the `n` metadata records, or the first error met while
/// reading them.
pub open spec fn spec_parse_metadata(a: Seq<u8>, n: nat, k: nat) -> Result<
    Seq<Metadata>,
    ArchiveError,
>
    decreases k,
{
    if k == 0 {
        Ok(Seq::empty())
    } else {
        match spec_parse_metadata(a, n, (k - 1) as nat) {
            Err(e) => Err(e),
            Ok(ms) => {
                let off = record_offset(k - 1);
                if off > usize::MAX {
                    Err(ArchiveError::MetadataOffsetOverflow)
                } else {
                    match spec_read_metadata(a, off) {
                        None => Err(ArchiveError::UnexpectedEof),
                        Some(m) => if m.files_number != n {
                            Err(ArchiveError::FileCountMismatch)
                        } else {
                            Ok(ms.push(m))
                        },
                    }
                }
            },
        }
    }
}

/// The file that metadata record `m` describes, or the first error met
/// while reading it.
pub open spec fn spec_extract_file(a: Seq<u8>, m: Metadata) -> Result<FileView, ArchiveError> {
    match spec_read_bytes(a, m.name_offset, m.name_size as u64) {
        Err(e) => Err(e),
        Ok(nb) => if !valid_utf8(nb) {
            Err(ArchiveError::NameNotUtf8)
        } else {
            match spec_read_bytes(a, m.path_offset, m.path_size as u64) {
                Err(e) => Err(e),
                Ok(pb) => if !valid_utf8(pb) {
                    Err(ArchiveError::PathNotUtf8)
                } else {
                    match spec_check_path(decode_utf8(pb)) {
                        Err(e) => Err(e),
                        Ok(_) => match spec_read_bytes(a, m.content_offset, m.content_size) {
                            Err(e) => Err(e),
                            Ok(cb) => Ok(
                                FileView { name: decode_utf8(nb), path: decode_utf8(pb), content: cb },
                            ),
                        },
                    }
                },
            }
        },
    }
}

/// The files that the first `k` records of `ms` describe, or the first
/// error met while reading them.
pub open spec fn spec_extract_files(a: Seq<u8>, ms: Seq<Metadata>, k: nat) -> Result<
    Seq<FileView>,
    ArchiveError,
>
    decreases k,
{
    if k == 0 {
        Ok(Seq::empty())
    } else {
        match spec_extract_files(a, ms, (k - 1) as nat) {
            Err(e) => Err(e),
            Ok(fs) => match spec_extract_file(a, ms[k - 1]) {
                Err(e) => Err(e),
                Ok(f) => Ok(fs.push(f)),
            },
        }
    }
}

/// What reading `n` metadata records and then their files gives.
pub open spec fn spec_read_records(a: Seq<u8>, n: nat) -> Result<Seq<FileView>, ArchiveError> {
    match spec_parse_metadata(a, n, n) {
        Err(e) => Err(e),
        Ok(ms) => spec_extract_files(a, ms, n),
    }
}

/// What reading the archive `a` gives: every file it describes, in the
/// order of its metadata records, or the first error met. All records are
/// read before any file.
pub open spec fn spec_read_archive(a: Seq<u8>) -> Result<Seq<FileView>, ArchiveError> {
    match spec_read_u32(a, 0) {
        None => Err(ArchiveError::UnexpectedEof),
        Some(size) => match spec_read_u64(a, 4) {
            None => Err(ArchiveError::UnexpectedEof),
            Some(start) => if start > usize::MAX {
                Err(ArchiveError::MetadataStartTooLarge)
            } else if start != ARCHIVE_HEAD_SIZE || size % (METADATA_SIZE as u32) != 0 {
                Err(ArchiveError::MetadataSizeMismatch)
            } else {
                spec_read_records(a, (size / (METADATA_SIZE as u32)) as nat)
            },
        },
    }
}

/// The files a read gives back, as mathematical values.
pub open spec fn files_result(r: Result<Vec<FileInfo>, ArchiveError>) -> Result<
    Seq<FileView>,
    ArchiveError,
> {
    match r {
        Ok(v) => Ok(views(v@)),
        Err(e) => Err(e),
    }
}

/// Reads the `size` bytes at `offset` of the archive.
pub fn read_bytes(archive: &[u8], offset: u64, size: u64) -> (r: Result<&[u8], ArchiveError>)
    ensures
        match r {
            Ok(s) => spec_read_bytes(archive@, offset, size) == Ok::<Seq<u8>, ArchiveError>(s@),
            Err(e) => spec_read_bytes(archive@, offset, size) == Err::<Seq<u8>, ArchiveError>(e),
        },
{
    if offset > usize::MAX as u64 {
        return Err(ArchiveError::OffsetTooLarge);
    }
    let offset = offset as usize;
    if size > usize::MAX as u64 {
        return Err(ArchiveError::SizeTooLarge);
    }
    let size = size as usize;
    let end = match offset.checked_add(size) {
        Some(end) => end,
        None => return Err(ArchiveError::RangeOverflow),
    };
    if end > archive.len() {
        return Err(ArchiveError::UnexpectedEof);
    }
    Ok(slice_subrange(archive, offset, end))
}

/// Reads the little-endian `u32` at `offset`.
pub fn read_u32(archive: &[u8], offset: usize) -> (r: Result<u32, ArchiveError>)
    requires
        offset <= usize::MAX - 4,
    ensures
        r == match spec_read_u32(archive@, offset as int) {
            Some(x) => Ok::<u32, ArchiveError>(x),
            None => Err(ArchiveError::UnexpectedEof),
        },
{
    if offset + 4 > archive.len() {
        return Err(ArchiveError::UnexpectedEof);
    }
    Ok(u32_from_le_bytes(slice_subrange(archive, offset, offset + 4)))
}

/// Reads the little-endian `u64` at `offset`.
pub fn read_u64(archive: &[u8], offset: usize) -> (r: Result<u64, ArchiveError>)
    requires
        offset <= usize::MAX - 8,
    ensures
        r == match spec_read_u64(archive@, offset as int) {
            Some(x) => Ok::<u64, ArchiveError>(x),
            None => Err(ArchiveError::UnexpectedEof),
        },
{
    if offset + 8 > archive.len() {
        return Err(ArchiveError::UnexpectedEof);
    }
    Ok(u64_from_le_bytes(slice_subrange(archive, offset, offset + 8)))
}

/// Reads the metadata record at `offset`.
pub fn read_metadata(archive: &[u8], offset: usize) -> (r: Result<Metadata, ArchiveError>)
    requires
        offset <= usize::MAX - 48,
    ensures
        r == match spec_read_metadata(archive@, offset as int) {
            Some(m) => Ok::<Metadata, ArchiveError>(m),
            None => Err(ArchiveError::UnexpectedEof),
        },
{
    let files_number = read_u64(archive, offset)?;
    let path_offset = read_u64(archive, offset + 8)?;
    let path_size = read_u32(archive, offset + 16)?;
    let content_offset = read_u64(archive, offset + 20)?;
    let content_size = read_u64(archive, offset + 28)?;
    let name_offset = read_u64(archive, offset + 36)?;
    let name_size = read_u32(archive, offset + 44)?;
    Ok(
        Metadata {
            files_number,
            path_offset,
            path_size,
            content_offset,
            content_size,
            name_offset,
            name_size,
        },
    )
}

/// Checks that a path read from an archive is non-empty, relative and free
/// of `..` components. Paths are read as on Unix: only `/` separates
/// components, and a path is absolute when it starts with `/`; a `\` or a
/// drive prefix is an ordinary character of a component.
pub fn validate_relative_path(path: &str) -> (r: Result<(), ArchiveError>)
    ensures
        r == spec_check_path(path@),
{
    if path.is_empty() {
        return Err(ArchiveError::EmptyPath);
    }
    let b = path.as_bytes();
    let len = b.len();
    if b[0] == SLASH {
        return Err(ArchiveError::PathEscapes);
    }
    let mut i: usize = 0;
    while i < len
        invariant
            b@ == encode_utf8(path@),
            len == b@.len(),
            i <= len,
            forall|j: int| 0 <= j < i ==> !parent_component_at(b@, j),
        decreases len - i,
    {
        if len - i >= 2 && (i == 0 || b[i - 1] == SLASH) && b[i] == DOT && b[i + 1] == DOT && (i + 2
            == len || b[i + 2] == SLASH) {
            assert(parent_component_at(b@, i as int));
            return Err(ArchiveError::PathEscapes);
        }
        i += 1;
    }
    assert forall|j: int| !parent_component_at(b@, j) by {
        if 0 <= j < len {
        }
    }
    Ok(())
}

/// An error met among the first `k` records is the error of reading them all.
proof fn lemma_parse_metadata_err(a: Seq<u8>, n: nat, k: nat, j: nat)
    requires
        k <= j,
        spec_parse_metadata(a, n, k) is Err,
    ensures
        spec_parse_metadata(a, n, j) == spec_parse_metadata(a, n, k),
    decreases j - k,
{
    if k < j {
        lemma_parse_metadata_err(a, n, k, (j - 1) as nat);
    }
}

/// Reading `k` records without error gives `k` records.
proof fn lemma_parse_metadata_len(a: Seq<u8>, n: nat, k: nat)
    requires
        spec_parse_metadata(a, n, k) is Ok,
    ensures
        spec_parse_metadata(a, n, k)->Ok_0.len() == k,
    decreases k,
{
    if k > 0 {
        lemma_parse_metadata_len(a, n, (k - 1) as nat);
    }
}

/// An error met among the first `k` files is the error of reading them all.
proof fn lemma_extract_files_err(a: Seq<u8>, ms: Seq<Metadata>, k: nat, j: nat)
    requires
        k <= j,
        spec_extract_files(a, ms, k) is Err,
    ensures
        spec_extract_files(a, ms, j) == spec_extract_files(a, ms, k),
    decreases j - k,
{
    if k < j {
        lemma_extract_files_err(a, ms, k, (j - 1) as nat);
    }
}

/// Reads the file that the metadata record `item` describes.
pub fn extract_file(archive: &[u8], item: &Metadata) -> (r: Result<FileInfo, ArchiveError>)
    ensures
        match r {
            Ok(f) => spec_extract_file(archive@, *item) == Ok::<FileView, ArchiveError>(f@),
            Err(e) => spec_extract_file(archive@, *item) == Err::<FileView, ArchiveError>(e),
        },
{
    let name_bytes = read_bytes(archive, item.name_offset, item.name_size as u64)?;
    let name = match string_from_utf8(slice_to_vec(name_bytes)) {
        Some(s) => s,
        None => return Err(ArchiveError::NameNotUtf8),
    };
    let path_bytes = read_bytes(archive, item.path_offset, item.path_size as u64)?;
    let path = match string_from_utf8(slice_to_vec(path_bytes)) {
        Some(s) => s,
        None => return Err(ArchiveError::PathNotUtf8),
    };
    validate_relative_path(path.as_str())?;
    let content = slice_to_vec(read_bytes(archive, item.content_offset, item.content_size)?);
    Ok(FileInfo { name, path, content })
}

/// Reads every file that the archive describes: its head, then every
/// metadata record, then each file's name, path and content.
pub fn read_archive(archive: &[u8]) -> (r: Result<Vec<FileInfo>, ArchiveError>)
    ensures
        files_result(r) == spec_read_archive(archive@),
{
    let ghost a = archive@;
    let metadata_size = read_u32(archive, 0)? as usize;
    let metadata_start = read_u64(archive, 4)?;
    if metadata_start > usize::MAX as u64 {
        return Err(ArchiveError::MetadataStartTooLarge);
    }
    let metadata_start = metadata_start as usize;
    let metadata_item_size = METADATA_SIZE as usize;
    if metadata_start != ARCHIVE_HEAD_SIZE as usize || metadata_size % metadata_item_size != 0 {
        return Err(ArchiveError::MetadataSizeMismatch);
    }
    let files_number = metadata_size / metadata_item_size;
    let ghost n = files_number as nat;
    assert(spec_read_u32(a, 0) == Some(metadata_size as u32));
    assert(spec_read_u64(a, 4) == Some(metadata_start as u64));
    assert(spec_read_archive(a) == spec_read_records(a, n));
    let mut metadata: Vec<Metadata> = Vec::with_capacity(files_number);
    let mut index: usize = 0;
    while index < files_number
        invariant
            a == archive@,
            index <= files_number,
            n == files_number,
            files_number * 48 <= u32::MAX,
            metadata_start == ARCHIVE_HEAD_SIZE,
            metadata_item_size == METADATA_SIZE,
            spec_read_archive(a) == spec_read_records(a, n),
            spec_parse_metadata(a, n, index as nat) == Ok::<Seq<Metadata>, ArchiveError>(
                metadata@,
            ),
        decreases files_number - index,
    {
        assert(index * 48 < files_number * 48) by (nonlinear_arith)
            requires
                index < files_number,
        ;
        let offset = match metadata_start.checked_add(index * metadata_item_size) {
            Some(offset) => offset,
            None => {
                proof {
                    lemma_parse_metadata_err(a, n, (index + 1) as nat, n);
                }
                return Err(ArchiveError::MetadataOffsetOverflow);
            },
        };
        if offset > usize::MAX - 48 {
            proof {
                lemma_parse_metadata_err(a, n, (index + 1) as nat, n);
            }
            return Err(ArchiveError::UnexpectedEof);
        }
        let item = match read_metadata(archive, offset) {
            Ok(item) => item,
            Err(e) => {
                proof {
                    assert(spec_parse_metadata(a, n, (index + 1) as nat) == Err::<
                        Seq<Metadata>,
                        ArchiveError,
                    >(e));
                    lemma_parse_metadata_err(a, n, (index + 1) as nat, n);
                }
                return Err(e);
            },
        };
        if item.files_number != files_number as u64 {
            proof {
                assert(spec_parse_metadata(a, n, (index + 1) as nat) == Err::<
                    Seq<Metadata>,
                    ArchiveError,
                >(ArchiveError::FileCountMismatch));
                lemma_parse_metadata_err(a, n, (index + 1) as nat, n);
            }
            return Err(ArchiveError::FileCountMismatch);
        }
        metadata.push(item);
        index += 1;
    }
    let ghost ms = metadata@;
    proof {
        lemma_parse_metadata_len(a, n, n);
    }
    let mut files: Vec<FileInfo> = Vec::with_capacity(files_number);
    assert(views(files@) =~= Seq::<FileView>::empty());
    let mut i: usize = 0;
    while i < files_number
        invariant
            a == archive@,
            i <= files_number,
            n == files_number,
            metadata@ == ms,
            ms.len() == n,
            spec_parse_metadata(a, n, n) == Ok::<Seq<Metadata>, ArchiveError>(ms),
            spec_read_archive(a) == spec_read_records(a, n),
            spec_extract_files(a, ms, i as nat) == Ok::<Seq<FileView>, ArchiveError>(
                views(files@),
            ),
        decreases files_number - i,
    {
        match extract_file(archive, &metadata[i]) {
            Ok(f) => {
                let ghost before = views(files@);
                files.push(f);
                i += 1;
                assert(views(files@) =~= before.push(f@));
            },
            Err(e) => {
                proof {
                    assert(spec_extract_files(a, ms, (i + 1) as nat) == Err::<
                        Seq<FileView>,
                        ArchiveError,
                    >(e));
                    lemma_extract_files_err(a, ms, (i + 1) as nat, n);
                }
                return Err(e);
            },
        }
    }
    Ok(files)
}

/// Two characters with the same code are the same character.
proof fn lemma_char_eq(c: char, d: char)
    requires
        c as u32 == d as u32,
    ensures
        c == d,
{
    vstd::utf8::char_u32_cast(c, c as u32);
    vstd::utf8::char_u32_cast(d, d as u32);
}

/// The encoding of one character.
proof fn lemma_encode_one(c: char)
    ensures
        encode_utf8(seq![c]) == encode_scalar(c as u32),
{
    assert(seq![c][0] == c);
    assert(seq![c].drop_first() =~= Seq::<char>::empty());
    assert(encode_utf8(Seq::<char>::empty()) =~= Seq::<u8>::empty());
    assert(encode_utf8(seq![c]) =~= encode_scalar(c as u32));
}

/// The path component `..`.
pub open spec fn dot_dot() -> Seq<char> {
    seq!['.', '.']
}

/// The UTF-8 encoding of a character: one byte, the character itself, for
/// ASCII; otherwise two or more bytes, all at or above `0x80`.
proof fn lemma_char_bytes(c: char)
    ensures
        encode_scalar(c as u32).len() >= 1,
        (c as u32) < 0x80 ==> encode_scalar(c as u32) == seq![c as u32 as u8],
        (c as u32) >= 0x80 ==> encode_scalar(c as u32).len() >= 2 && forall|j: int|
            0 <= j < encode_scalar(c as u32).len() ==> #[trigger] encode_scalar(c as u32)[j]
                >= 0x80,
{
    let v = c as u32;
    assert(forall|x: u32| #![auto] (0xC0u8 | ((x >> 6) & 0x1F) as u8) >= 0x80u8) by (bit_vector);
    assert(forall|x: u32| #![auto] (0xE0u8 | ((x >> 12) & 0x0F) as u8) >= 0x80u8) by (bit_vector);
    assert(forall|x: u32| #![auto] (0xF0u8 | ((x >> 18) & 0x7) as u8) >= 0x80u8) by (bit_vector);
    assert(forall|x: u32| #![auto] (0x80u8 | (x & 0x3F) as u8) >= 0x80u8) by (bit_vector);
    assert(forall|x: u32| #![auto] (0x80u8 | ((x >> 6) & 0x3F) as u8) >= 0x80u8) by (bit_vector);
    assert(forall|x: u32| #![auto] (0x80u8 | ((x >> 12) & 0x3F) as u8) >= 0x80u8) by (bit_vector);
    assert(forall|x: u32| x < 0x80 ==> #[trigger] ((x & 0x7F) as u8) == x as u8) by (bit_vector);
    if v < 0x80 {
        assert(encode_scalar(v) =~= seq![v as u8]);
    }
}

/// The encoding of a concatenation is the concatenation of the encodings.
proof fn lemma_encode_concat(x: Seq<char>, y: Seq<char>)
    ensures
        encode_utf8(x + y) == encode_utf8(x) + encode_utf8(y),
    decreases x.len(),
{
    if x.len() == 0 {
        assert(x + y =~= y);
        assert(encode_utf8(x) + encode_utf8(y) =~= encode_utf8(y));
    } else {
        assert((x + y)[0] == x[0]);
        assert((x + y).drop_first() =~= x.drop_first() + y);
        lemma_encode_concat(x.drop_first(), y);
        assert(encode_utf8(x + y) =~= encode_utf8(x) + encode_utf8(y));
    }
}

/// The first byte of a non-empty path's encoding, where it is ASCII, is its
/// first character.
proof fn lemma_first_byte(p: Seq<char>)
    requires
        p.len() > 0,
    ensures
        encode_utf8(p).len() >= 1,
        encode_utf8(p)[0] < 0x80 ==> encode_utf8(p)[0] == p[0] as u32,
        (p[0] as u32) < 0x80 ==> encode_utf8(p)[0] == p[0] as u32,
{
    lemma_char_bytes(p[0]);
    let e = encode_scalar(p[0] as u32);
    assert(encode_utf8(p) == e + encode_utf8(p.drop_first()));
    assert(encode_utf8(p)[0] == e[0]);
}

/// A `..` component at byte `i` of a path's encoding is a `..` component of
/// its characters, after the characters that encode to the first `i` bytes.
proof fn lemma_parent_bytes_to_chars(p: Seq<char>, i: int) -> (r: (Seq<char>, Seq<char>))
    requires
        parent_component_at(encode_utf8(p), i),
    ensures
        p == r.0 + dot_dot() + r.1,
        encode_utf8(r.0).len() == i,
        r.0.len() == 0 || r.0.last() == '/',
        r.1.len() == 0 || r.1[0] == '/',
    decreases p.len(),
{
    let b = encode_utf8(p);
    if p.len() == 0 {
        assert(false);
        (Seq::empty(), Seq::empty())
    } else {
        let c0 = p[0];
        let t = p.drop_first();
        let e = encode_scalar(c0 as u32);
        let bt = encode_utf8(t);
        lemma_char_bytes(c0);
        assert(b == e + bt);
        if (c0 as u32) < 0x80 {
            assert(e.len() == 1);
            if i == 0 {
                assert(b[0] == c0 as u32);
                lemma_char_eq(c0, '.');
                assert(bt.len() >= 1 && bt[0] == b[1]);
                assert(t.len() > 0);
                lemma_first_byte(t);
                lemma_char_bytes(t[0]);
                if (t[0] as u32) >= 0x80 {
                    assert(bt[0] >= 0x80);
                }
                lemma_char_eq(t[0], '.');
                let u = t.drop_first();
                lemma_char_bytes(t[0]);
                assert(bt == encode_scalar(t[0] as u32) + encode_utf8(u));
                assert(encode_utf8(u) =~= b.skip(2));
                if u.len() > 0 {
                    lemma_first_byte(u);
                    assert(b[2] == SLASH);
                    lemma_char_bytes(u[0]);
                    if (u[0] as u32) >= 0x80 {
                        assert(encode_utf8(u)[0] >= 0x80);
                    }
                    lemma_char_eq(u[0], '/');
                } else {
                }
                assert(t =~= seq![t[0]] + u);
                assert(p =~= Seq::<char>::empty() + dot_dot() + u);
                (Seq::empty(), u)
            } else {
                assert(forall|j: int| 0 <= j < bt.len() ==> bt[j] == b[j + 1]);
                assert(parent_component_at(bt, i - 1));
                let (a1, c1) = lemma_parent_bytes_to_chars(t, i - 1);
                let a = seq![c0] + a1;
                lemma_encode_concat(seq![c0], a1);
                assert(seq![c0][0] == c0 && seq![c0].drop_first() =~= Seq::<char>::empty());
                lemma_encode_one(c0);
                if a1.len() == 0 {
                    assert(b[i - 1] == SLASH);
                    assert(b[0] == c0 as u32);
                    lemma_char_eq(c0, '/');
                }
                assert(a.last() == if a1.len() == 0 { c0 } else { a1.last() });
                assert(p =~= seq![c0] + t);
                assert(p =~= a + dot_dot() + c1);
                (a, c1)
            }
        } else {
            let l = e.len() as int;
            if i < l {
                assert(b[i] == e[i]);
                assert(false);
            } else if i == l {
                assert(b[i - 1] == e[l - 1]);
                assert(false);
            }
            assert(forall|j: int| 0 <= j < bt.len() ==> bt[j] == b[j + l]);
            assert(parent_component_at(bt, i - l));
            let (a1, c1) = lemma_parent_bytes_to_chars(t, i - l);
            let a = seq![c0] + a1;
            lemma_encode_concat(seq![c0], a1);
            assert(seq![c0][0] == c0 && seq![c0].drop_first() =~= Seq::<char>::empty());
            lemma_encode_one(c0);
            assert(a1.len() > 0);
            assert(a.last() == a1.last());
            assert(p =~= seq![c0] + t);
                assert(p =~= a + dot_dot() + c1);
            (a, c1)
        }
    }
}

/// `p` is non-empty, does not start with `/`, and has no `..` component:
/// no `..` that follows the start or a `/` and precedes the end or a `/`.
pub open spec fn is_relative_path(p: Seq<char>) -> bool {
    &&& p.len() > 0
    &&& p[0] != '/'
    &&& forall|a: Seq<char>, c: Seq<char>|
        #[trigger] (a + dot_dot() + c) == p ==> !((a.len() == 0 || a.last() == '/') && (c.len()
            == 0 || c[0] == '/'))
}

/// Every non-empty path that does not start with `/` and has no `..`
/// component (a `..` between the start or a `/` and the end or a `/`) is
/// accepted: hidden names such as `.gitignore` or `.config/app.toml`, and
/// components such as `...` or `..x`, included.
pub proof fn lemma_relative_paths_accepted(p: Seq<char>)
    requires
        is_relative_path(p),
    ensures
        spec_check_path(p) == Ok::<(), ArchiveError>(()),
{
    let b = encode_utf8(p);
    lemma_first_byte(p);
    if b[0] == SLASH {
        lemma_char_bytes(p[0]);
        if (p[0] as u32) >= 0x80 {
            assert(b[0] >= 0x80);
        }
        lemma_char_eq(p[0], '/');
        assert(false);
    }
    if exists|i: int| parent_component_at(b, i) {
        let i = choose|i: int| parent_component_at(b, i);
        let (a, c) = lemma_parent_bytes_to_chars(p, i);
        assert(a + dot_dot() + c == p);
        assert(false);
    }
}

/// A path with a `..` component is refused, whatever surrounds it.
pub proof fn lemma_parent_component_refused(a: Seq<char>, c: Seq<char>)
    requires
        a.len() == 0 || a.last() == '/',
        c.len() == 0 || c[0] == '/',
    ensures
        spec_check_path(a + dot_dot() + c) == Err::<(), ArchiveError>(ArchiveError::PathEscapes),
{
    let dd = dot_dot();
    let p = a + dd + c;
    lemma_encode_concat(a + dd, c);
    lemma_encode_concat(a, dd);
    let ea = encode_utf8(a);
    let ed = encode_utf8(dd);
    let ec = encode_utf8(c);
    lemma_first_byte(dd);
    lemma_char_bytes('.');
    assert(dd.drop_first() =~= seq!['.']);
    lemma_first_byte(dd.drop_first());
    assert(ed == encode_scalar('.' as u32) + encode_utf8(dd.drop_first()));
    assert(seq!['.'].drop_first() =~= Seq::<char>::empty());
    assert(encode_utf8(seq!['.']) == encode_scalar('.' as u32) + encode_utf8(Seq::<char>::empty()));
    assert(ed =~= seq![DOT, DOT]);
    let b = encode_utf8(p);
    assert(b == ea + ed + ec);
    let i = ea.len() as int;
    if a.len() > 0 {
        let init = a.drop_last();
        assert(a =~= init + seq!['/']);
        lemma_encode_concat(init, seq!['/']);
        lemma_char_bytes('/');
        assert(seq!['/'].drop_first() =~= Seq::<char>::empty());
        assert(encode_utf8(seq!['/']) == encode_scalar('/' as u32) + encode_utf8(
            Seq::<char>::empty(),
        ));
        assert(encode_utf8(seq!['/']) =~= seq![SLASH]);
        assert(b[i - 1] == ea[i - 1]);
    }
    if c.len() > 0 {
        lemma_first_byte(c);
        lemma_char_bytes('/');
        assert(b[i + 2] == ec[0]);
    }
    assert(parent_component_at(b, i));
}

} // verus!
