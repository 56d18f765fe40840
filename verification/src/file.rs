use vstd::bytes::*;
use vstd::prelude::*;
use vstd::slice::slice_to_vec;
use vstd::utf8::encode_utf8;

use crate::seqs::{
    append_bytes, concat, lemma_concat_take_step, lemma_sum_full, lemma_sum_take_le,
    lemma_sum_take_mono, lemma_sum_take_step, sum,
};

verus! {

broadcast use {vstd::seq::group_seq_axioms, vstd::slice::group_slice_axioms};

/// Bytes taken by the archive head.
pub const ARCHIVE_HEAD_SIZE: u64 = 12;

/// Bytes taken by one metadata record.
pub const METADATA_SIZE: u64 = 48;

/// A file to be archived, or one read back from an archive.
#[derive(Debug, PartialEq, Eq)]
pub struct FileInfo {
    /// The file's own name.
    pub name: String,
    /// Where the file stands, relative to the archived directory.
    pub path: String,
    /// What the file holds.
    pub content: Vec<u8>,
}

/// What a [`FileInfo`] holds, as mathematical values.
pub struct FileView {
    pub name: Seq<char>,
    pub path: Seq<char>,
    pub content: Seq<u8>,
}

impl View for FileInfo {
    type V = FileView;

    open spec fn view(&self) -> FileView {
        FileView { name: self.name@, path: self.path@, content: self.content@ }
    }
}

/// Where a file's name, path and content stand in an archive.
#[derive(Clone, Copy, Debug, PartialEq, Eq, Structural)]
pub struct Metadata {
    pub files_number: u64,
    pub path_offset: u64,
    pub path_size: u32,
    pub content_offset: u64,
    pub content_size: u64,
    pub name_offset: u64,
    pub name_size: u32,
}

/// The head of an archive: how many bytes of metadata follow, and where.
#[derive(Clone, Copy, Debug, PartialEq, Eq, Structural)]
pub struct ArchiveHead {
    pub metadata_size: u32,
    pub metadata_start: u64,
}

pub open spec fn views(files: Seq<FileInfo>) -> Seq<FileView> {
    Seq::new(files.len(), |i: int| files[i]@)
}

/// The UTF-8 bytes of a file's name.
pub open spec fn name_bytes(f: FileView) -> Seq<u8> {
    encode_utf8(f.name)
}

/// The UTF-8 bytes of a file's path.
pub open spec fn path_bytes(f: FileView) -> Seq<u8> {
    encode_utf8(f.path)
}

pub open spec fn name_lens(fs: Seq<FileView>) -> Seq<int> {
    Seq::new(fs.len(), |i: int| name_bytes(fs[i]).len() as int)
}

pub open spec fn path_lens(fs: Seq<FileView>) -> Seq<int> {
    Seq::new(fs.len(), |i: int| path_bytes(fs[i]).len() as int)
}

pub open spec fn content_lens(fs: Seq<FileView>) -> Seq<int> {
    Seq::new(fs.len(), |i: int| fs[i].content.len() as int)
}

/// Name lengths as the 32-bit size fields record them.
pub open spec fn name_fields(fs: Seq<FileView>) -> Seq<int> {
    Seq::new(fs.len(), |i: int| (name_bytes(fs[i]).len() as u32) as int)
}

/// Path lengths as the 32-bit size fields record them.
pub open spec fn path_fields(fs: Seq<FileView>) -> Seq<int> {
    Seq::new(fs.len(), |i: int| (path_bytes(fs[i]).len() as u32) as int)
}

/// Where the names begin: after the head and one record per file.
pub open spec fn names_start(fs: Seq<FileView>) -> int {
    ARCHIVE_HEAD_SIZE + METADATA_SIZE * fs.len()
}

/// Where the paths begin: after all the names.
pub open spec fn paths_start(fs: Seq<FileView>) -> int {
    names_start(fs) + sum(name_lens(fs))
}

/// Where the contents begin: after all the paths.
pub open spec fn contents_start(fs: Seq<FileView>) -> int {
    paths_start(fs) + sum(path_lens(fs))
}

/// The length of the whole archive of `fs`.
pub open spec fn archive_len(fs: Seq<FileView>) -> int {
    contents_start(fs) + sum(content_lens(fs))
}

/// Every offset of the archive of `fs` fits in 64 bits.
pub open spec fn layout_fits(fs: Seq<FileView>) -> bool {
    archive_len(fs) <= u64::MAX
}

/// The metadata record of file `i` among `fs`. A name or path size field
/// keeps the low 32 bits of the length, and the names and paths of later
/// files are placed by those recorded sizes; the contents are placed by
/// their full lengths.
pub open spec fn spec_metadata(fs: Seq<FileView>, i: int) -> Metadata {
    Metadata {
        files_number: fs.len() as u64,
        path_offset: (paths_start(fs) + sum(path_fields(fs).take(i))) as u64,
        path_size: path_bytes(fs[i]).len() as u32,
        content_offset: (contents_start(fs) + sum(content_lens(fs).take(i))) as u64,
        content_size: fs[i].content.len() as u64,
        name_offset: (names_start(fs) + sum(name_fields(fs).take(i))) as u64,
        name_size: name_bytes(fs[i]).len() as u32,
    }
}

pub open spec fn spec_metadata_table(fs: Seq<FileView>) -> Seq<Metadata> {
    Seq::new(fs.len(), |i: int| spec_metadata(fs, i))
}

/// The head of an archive of `n` files: the metadata size keeps the low 32
/// bits of `48 * n`.
pub open spec fn spec_head(n: nat) -> ArchiveHead {
    ArchiveHead {
        metadata_size: (METADATA_SIZE * n) as u32,
        metadata_start: ARCHIVE_HEAD_SIZE,
    }
}

/// The bytes of an archive head, little-endian.
pub open spec fn head_bytes(h: ArchiveHead) -> Seq<u8> {
    spec_u32_to_le_bytes(h.metadata_size) + spec_u64_to_le_bytes(h.metadata_start)
}

/// The bytes of a metadata record, little-endian, fields in declaration order.
pub open spec fn meta_bytes(m: Metadata) -> Seq<u8> {
    spec_u64_to_le_bytes(m.files_number) + spec_u64_to_le_bytes(m.path_offset)
        + spec_u32_to_le_bytes(m.path_size) + spec_u64_to_le_bytes(m.content_offset)
        + spec_u64_to_le_bytes(m.content_size) + spec_u64_to_le_bytes(m.name_offset)
        + spec_u32_to_le_bytes(m.name_size)
}

pub open spec fn meta_pieces(fs: Seq<FileView>) -> Seq<Seq<u8>> {
    Seq::new(fs.len(), |i: int| meta_bytes(spec_metadata(fs, i)))
}

pub open spec fn name_pieces(fs: Seq<FileView>) -> Seq<Seq<u8>> {
    Seq::new(fs.len(), |i: int| name_bytes(fs[i]))
}

pub open spec fn path_pieces(fs: Seq<FileView>) -> Seq<Seq<u8>> {
    Seq::new(fs.len(), |i: int| path_bytes(fs[i]))
}

pub open spec fn content_pieces(fs: Seq<FileView>) -> Seq<Seq<u8>> {
    Seq::new(fs.len(), |i: int| fs[i].content)
}

/// The archive of `fs`: the head, every metadata record, then every name,
/// every path and every content, each in the order of `fs`.
pub open spec fn archive_bytes(fs: Seq<FileView>) -> Seq<u8> {
    head_bytes(spec_head(fs.len())) + concat(meta_pieces(fs)) + concat(name_pieces(fs)) + concat(
        path_pieces(fs),
    ) + concat(content_pieces(fs))
}

/// The low 32 bits of a length never exceed it.
pub proof fn lemma_truncate_le(x: usize)
    ensures
        (x as u32) as int <= x,
{
    assert((x as u32) as usize <= x) by (bit_vector);
}

proof fn lemma_fields_le_lens(fs: Seq<FileView>)
    ensures
        forall|i: int| 0 <= i < fs.len() ==> name_fields(fs)[i] <= name_lens(fs)[i],
        forall|i: int| 0 <= i < fs.len() ==> path_fields(fs)[i] <= path_lens(fs)[i],
{
    assert forall|i: int| 0 <= i < fs.len() implies name_fields(fs)[i] <= name_lens(fs)[i] by {
        let l = name_bytes(fs[i]).len();
        if l <= usize::MAX {
            lemma_truncate_le(l as usize);
        }
    }
    assert forall|i: int| 0 <= i < fs.len() implies path_fields(fs)[i] <= path_lens(fs)[i] by {
        let l = path_bytes(fs[i]).len();
        if l <= usize::MAX {
            lemma_truncate_le(l as usize);
        }
    }
}

/// The number of UTF-8 bytes of `s`.
pub fn str_byte_len(s: &str) -> (n: usize)
    ensures
        n == encode_utf8(s@).len(),
{
    s.as_bytes().len()
}

/// The prefix sums of the layout never pass the archive's length, and the
/// archive's regions follow one another.
pub(crate) proof fn lemma_layout_bounds(fs: Seq<FileView>, i: int)
    requires
        0 <= i <= fs.len(),
    ensures
        0 <= sum(name_fields(fs).take(i)) <= sum(name_lens(fs).take(i)) <= sum(name_lens(fs)),
        0 <= sum(path_fields(fs).take(i)) <= sum(path_lens(fs).take(i)) <= sum(path_lens(fs)),
        0 <= sum(content_lens(fs).take(i)) <= sum(content_lens(fs)),
        names_start(fs) <= paths_start(fs) <= contents_start(fs) <= archive_len(fs),
{
    let n = fs.len() as int;
    lemma_fields_le_lens(fs);
    assert(name_fields(fs).take(0).len() == 0);
    assert(path_fields(fs).take(0).len() == 0);
    assert(content_lens(fs).take(0).len() == 0);
    assert(name_lens(fs).take(0).len() == 0);
    assert(path_lens(fs).take(0).len() == 0);
    lemma_sum_take_mono(name_fields(fs), 0, i);
    lemma_sum_take_mono(path_fields(fs), 0, i);
    lemma_sum_take_mono(content_lens(fs), 0, i);
    lemma_sum_take_mono(content_lens(fs), i, n);
    lemma_sum_take_mono(content_lens(fs), 0, n);
    lemma_sum_take_mono(name_lens(fs), i, n);
    lemma_sum_take_mono(name_lens(fs), 0, n);
    lemma_sum_take_mono(path_lens(fs), i, n);
    lemma_sum_take_mono(path_lens(fs), 0, n);
    lemma_sum_take_le(name_fields(fs), name_lens(fs), i);
    lemma_sum_take_le(path_fields(fs), path_lens(fs), i);
    lemma_sum_full(name_lens(fs));
    lemma_sum_full(path_lens(fs));
    lemma_sum_full(content_lens(fs));
}

/// Whether every offset of the archive of `files` fits in 64 bits, as
/// [`populate_metadata`] and [`pack_archive`] require.
pub fn archive_layout_fits(files: &Vec<FileInfo>) -> (r: bool)
    ensures
        r == layout_fits(views(files@)),
{
    let ghost fs = views(files@);
    let n = files.len();
    proof {
        lemma_layout_bounds(fs, 0);
        lemma_sum_full(name_lens(fs));
        lemma_sum_full(path_lens(fs));
        lemma_sum_full(content_lens(fs));
    }
    let limit: u64 = (u64::MAX - ARCHIVE_HEAD_SIZE) / METADATA_SIZE;
    if n as u64 > limit {
        assert(48 * (n as int) > 0xFFFF_FFFF_FFFF_FFF3) by (nonlinear_arith)
            requires
                n as int > limit as int,
                limit as int == 0xFFFF_FFFF_FFFF_FFF3int / 48,
        ;
        return false;
    }
    assert(48 * (n as int) <= 0xFFFF_FFFF_FFFF_FFF3) by (nonlinear_arith)
        requires
            n as int <= limit as int,
            limit as int == 0xFFFF_FFFF_FFFF_FFF3int / 48,
    ;
    let mut total: u64 = ARCHIVE_HEAD_SIZE + METADATA_SIZE * (n as u64);
    let mut i: usize = 0;
    while i < n
        invariant
            i <= n,
            n == files.len(),
            fs == views(files@),
            total == names_start(fs) + sum(name_lens(fs).take(i as int)),
            sum(name_lens(fs).take(i as int)) <= sum(name_lens(fs)),
            0 <= sum(path_lens(fs)),
            0 <= sum(content_lens(fs)),
        decreases n - i,
    {
        proof {
            lemma_sum_take_step(name_lens(fs), i as int);
            lemma_layout_bounds(fs, i + 1);
        }
        match total.checked_add(str_byte_len(files[i].name.as_str()) as u64) {
            Some(t) => total = t,
            None => return false,
        }
        i += 1;
    }
    i = 0;
    while i < n
        invariant
            i <= n,
            n == files.len(),
            fs == views(files@),
            total == paths_start(fs) + sum(path_lens(fs).take(i as int)),
            sum(path_lens(fs).take(i as int)) <= sum(path_lens(fs)),
            0 <= sum(content_lens(fs)),
        decreases n - i,
    {
        proof {
            lemma_sum_take_step(path_lens(fs), i as int);
            lemma_layout_bounds(fs, i + 1);
        }
        match total.checked_add(str_byte_len(files[i].path.as_str()) as u64) {
            Some(t) => total = t,
            None => return false,
        }
        i += 1;
    }
    i = 0;
    while i < n
        invariant
            i <= n,
            n == files.len(),
            fs == views(files@),
            total == contents_start(fs) + sum(content_lens(fs).take(i as int)),
            sum(content_lens(fs).take(i as int)) <= sum(content_lens(fs)),
        decreases n - i,
    {
        proof {
            lemma_sum_take_step(content_lens(fs), i as int);
            lemma_layout_bounds(fs, i + 1);
        }
        match total.checked_add(files[i].content.len() as u64) {
            Some(t) => total = t,
            None => return false,
        }
        i += 1;
    }
    true
}

/// Builds the metadata record of every file: the names follow the records,
/// the paths follow the names and the contents follow the paths, each in
/// the order of `info`.
pub fn populate_metadata(info: &Vec<FileInfo>) -> (r: Vec<Metadata>)
    requires
        layout_fits(views(info@)),
    ensures
        r@ == spec_metadata_table(views(info@)),
{
    let ghost fs = views(info@);
    let n = info.len();
    let mut metadata_vec: Vec<Metadata> = Vec::new();
    let metadata_start: u64 = ARCHIVE_HEAD_SIZE;
    proof {
        lemma_layout_bounds(fs, 0);
    }
    let mut name_offset: u64 = metadata_start + METADATA_SIZE * (n as u64);
    let mut path_offset: u64 = name_offset;
    let mut i: usize = 0;
    while i < n
        invariant
            i <= n,
            n == info.len(),
            fs == views(info@),
            layout_fits(fs),
            name_offset == names_start(fs),
            path_offset == names_start(fs) + sum(name_lens(fs).take(i as int)),
        decreases n - i,
    {
        proof {
            lemma_sum_take_step(name_lens(fs), i as int);
            lemma_layout_bounds(fs, i + 1);
        }
        path_offset += str_byte_len(info[i].name.as_str()) as u64;
        i += 1;
    }
    proof {
        lemma_sum_full(name_lens(fs));
    }
    let mut content_offset: u64 = path_offset;
    i = 0;
    while i < n
        invariant
            i <= n,
            n == info.len(),
            fs == views(info@),
            layout_fits(fs),
            name_offset == names_start(fs),
            path_offset == paths_start(fs),
            content_offset == paths_start(fs) + sum(path_lens(fs).take(i as int)),
        decreases n - i,
    {
        proof {
            lemma_sum_take_step(path_lens(fs), i as int);
            lemma_layout_bounds(fs, i + 1);
        }
        content_offset += str_byte_len(info[i].path.as_str()) as u64;
        i += 1;
    }
    proof {
        lemma_sum_full(path_lens(fs));
    }
    i = 0;
    while i < n
        invariant
            i <= n,
            n == info.len(),
            fs == views(info@),
            layout_fits(fs),
            name_offset == names_start(fs) + sum(name_fields(fs).take(i as int)),
            path_offset == paths_start(fs) + sum(path_fields(fs).take(i as int)),
            content_offset == contents_start(fs) + sum(content_lens(fs).take(i as int)),
            metadata_vec@ == spec_metadata_table(fs).take(i as int),
        decreases n - i,
    {
        proof {
            lemma_sum_take_step(name_fields(fs), i as int);
            lemma_sum_take_step(path_fields(fs), i as int);
            lemma_sum_take_step(content_lens(fs), i as int);
            lemma_layout_bounds(fs, i as int);
            lemma_layout_bounds(fs, i + 1);
        }
        let item = &info[i];
        let metadata = Metadata {
            files_number: n as u64,
            name_offset,
            name_size: str_byte_len(item.name.as_str()) as u32,
            path_offset,
            path_size: str_byte_len(item.path.as_str()) as u32,
            content_offset,
            content_size: item.content.len() as u64,
        };
        name_offset += metadata.name_size as u64;
        path_offset += metadata.path_size as u64;
        content_offset += metadata.content_size;
        metadata_vec.push(metadata);
        assert(metadata == spec_metadata(fs, i as int));
        i += 1;
        assert(metadata_vec@ =~= spec_metadata_table(fs).take(i as int));
    }
    assert(metadata_vec@ =~= spec_metadata_table(fs));
    metadata_vec
}

/// The head of an archive whose metadata records are `blob`.
pub fn create_archive(blob: &[Metadata]) -> (r: ArchiveHead)
    requires
        METADATA_SIZE * blob@.len() <= u64::MAX,
    ensures
        r == spec_head(blob@.len()),
{
    ArchiveHead {
        metadata_size: (METADATA_SIZE * blob.len() as u64) as u32,
        metadata_start: ARCHIVE_HEAD_SIZE,
    }
}

/// The bytes under which a path is archived: its UTF-8 encoding.
pub fn path_archive_bytes(path: &str) -> (r: Vec<u8>)
    ensures
        r@ == encode_utf8(path@),
{
    slice_to_vec(path.as_bytes())
}

/// Appends the bytes of an archive head to `out`.
pub fn append_archive_head(out: &mut Vec<u8>, value: &ArchiveHead)
    ensures
        final(out)@ == old(out)@ + head_bytes(*value),
{
    let size = u32_to_le_bytes(value.metadata_size);
    let start = u64_to_le_bytes(value.metadata_start);
    append_bytes(out, size.as_slice());
    append_bytes(out, start.as_slice());
    assert(final(out)@ =~= old(out)@ + head_bytes(*value));
}

/// Appends the bytes of a metadata record to `out`.
pub fn append_metadata(out: &mut Vec<u8>, value: &Metadata)
    ensures
        final(out)@ == old(out)@ + meta_bytes(*value),
{
    append_bytes(out, u64_to_le_bytes(value.files_number).as_slice());
    append_bytes(out, u64_to_le_bytes(value.path_offset).as_slice());
    append_bytes(out, u32_to_le_bytes(value.path_size).as_slice());
    append_bytes(out, u64_to_le_bytes(value.content_offset).as_slice());
    append_bytes(out, u64_to_le_bytes(value.content_size).as_slice());
    append_bytes(out, u64_to_le_bytes(value.name_offset).as_slice());
    append_bytes(out, u32_to_le_bytes(value.name_size).as_slice());
    assert(final(out)@ =~= old(out)@ + meta_bytes(*value));
}

/// Packs `files` into an archive: the head, every metadata record, then
/// every name, every path and every content.
pub fn pack_archive(files: &Vec<FileInfo>) -> (r: Vec<u8>)
    requires
        layout_fits(views(files@)),
    ensures
        r@ == archive_bytes(views(files@)),
{
    let ghost fs = views(files@);
    let metadata_blob = populate_metadata(files);
    proof {
        lemma_layout_bounds(fs, 0);
    }
    let head = create_archive(metadata_blob.as_slice());
    let mut final_blob: Vec<u8> = Vec::new();
    append_archive_head(&mut final_blob, &head);
    let ghost prefix = final_blob@;
    let n = files.len();
    let mut i: usize = 0;
    while i < n
        invariant
            i <= n,
            n == files.len(),
            fs == views(files@),
            metadata_blob@ == spec_metadata_table(fs),
            final_blob@ == prefix + concat(meta_pieces(fs).take(i as int)),
        decreases n - i,
    {
        proof {
            lemma_concat_take_step(meta_pieces(fs), i as int);
        }
        append_metadata(&mut final_blob, &metadata_blob[i]);
        i += 1;
        assert(final_blob@ =~= prefix + concat(meta_pieces(fs).take(i as int)));
    }
    assert(meta_pieces(fs).take(n as int) =~= meta_pieces(fs));
    let ghost prefix = final_blob@;
    i = 0;
    while i < n
        invariant
            i <= n,
            n == files.len(),
            fs == views(files@),
            final_blob@ == prefix + concat(name_pieces(fs).take(i as int)),
        decreases n - i,
    {
        proof {
            lemma_concat_take_step(name_pieces(fs), i as int);
        }
        append_bytes(&mut final_blob, files[i].name.as_str().as_bytes());
        i += 1;
        assert(final_blob@ =~= prefix + concat(name_pieces(fs).take(i as int)));
    }
    assert(name_pieces(fs).take(n as int) =~= name_pieces(fs));
    let ghost prefix = final_blob@;
    i = 0;
    while i < n
        invariant
            i <= n,
            n == files.len(),
            fs == views(files@),
            final_blob@ == prefix + concat(path_pieces(fs).take(i as int)),
        decreases n - i,
    {
        proof {
            lemma_concat_take_step(path_pieces(fs), i as int);
        }
        let bytes = path_archive_bytes(files[i].path.as_str());
        append_bytes(&mut final_blob, bytes.as_slice());
        i += 1;
        assert(final_blob@ =~= prefix + concat(path_pieces(fs).take(i as int)));
    }
    assert(path_pieces(fs).take(n as int) =~= path_pieces(fs));
    let ghost prefix = final_blob@;
    i = 0;
    while i < n
        invariant
            i <= n,
            n == files.len(),
            fs == views(files@),
            final_blob@ == prefix + concat(content_pieces(fs).take(i as int)),
        decreases n - i,
    {
        proof {
            lemma_concat_take_step(content_pieces(fs), i as int);
        }
        append_bytes(&mut final_blob, files[i].content.as_slice());
        i += 1;
        assert(final_blob@ =~= prefix + concat(content_pieces(fs).take(i as int)));
    }
    assert(content_pieces(fs).take(n as int) =~= content_pieces(fs));
    final_blob
}

} // verus!
