use vstd::bytes::*;
use vstd::prelude::*;
use vstd::utf8::*;

use crate::file::{
    ARCHIVE_HEAD_SIZE, FileView, METADATA_SIZE, Metadata, archive_bytes, archive_len,
    content_lens, content_pieces, head_bytes, meta_bytes, meta_pieces, name_bytes, name_fields,
    name_lens, name_pieces, path_bytes, path_fields, path_lens, path_pieces, spec_head,
    spec_metadata, spec_metadata_table,
};
use crate::read_back::{
    is_relative_path, lemma_relative_paths_accepted,
    record_offset, spec_check_path, spec_extract_file, spec_extract_files, spec_parse_metadata,
    spec_read_archive, spec_read_bytes, spec_read_metadata, spec_read_records, spec_read_u32,
    spec_read_u64,
};
use crate::seqs::{
    concat, lemma_concat_len, lemma_concat_piece, lemma_concat_take_len, lemma_sum_full,
    lemma_sum_take_const, lemma_sum_take_step, piece_lens, sum,
};

verus! {

broadcast use {
    vstd::seq::group_seq_axioms,
    vstd::utf8::encode_utf8_valid_utf8,
    vstd::utf8::encode_utf8_decode_utf8,
};

/// Files that the archive format carries unchanged: the archive's offsets
/// fit in memory, the record count and every name and path length fit their
/// 32-bit fields, and every path is one that a reader accepts.
pub open spec fn packable(fs: Seq<FileView>) -> bool {
    &&& archive_len(fs) <= usize::MAX
    &&& METADATA_SIZE * fs.len() <= u32::MAX
    &&& forall|i: int| 0 <= i < fs.len() ==> name_bytes(#[trigger] fs[i]).len() <= u32::MAX
    &&& forall|i: int| 0 <= i < fs.len() ==> path_bytes(#[trigger] fs[i]).len() <= u32::MAX
    &&& forall|i: int| 0 <= i < fs.len() ==> spec_check_path(#[trigger] fs[i].path) is Ok
}

proof fn lemma_sub(a: Seq<u8>, pre: Seq<u8>, mid: Seq<u8>, post: Seq<u8>, lo: int, hi: int)
    requires
        a == pre + mid + post,
        0 <= lo <= hi <= mid.len(),
    ensures
        a.subrange(pre.len() + lo, pre.len() + hi) == mid.subrange(lo, hi),
{
    assert(a.subrange(pre.len() + lo, pre.len() + hi) =~= mid.subrange(lo, hi));
}

/// The bytes of a metadata record read back as that record.
proof fn lemma_read_metadata_of_bytes(a: Seq<u8>, off: int, m: Metadata)
    requires
        0 <= off,
        off + 48 <= a.len(),
        a.subrange(off, off + 48) == meta_bytes(m),
    ensures
        spec_read_metadata(a, off) == Some(m),
{
    lemma_auto_spec_u64_to_from_le_bytes();
    lemma_auto_spec_u32_to_from_le_bytes();
    let b = meta_bytes(m);
    let p0 = spec_u64_to_le_bytes(m.files_number);
    let p1 = spec_u64_to_le_bytes(m.path_offset);
    let p2 = spec_u32_to_le_bytes(m.path_size);
    let p3 = spec_u64_to_le_bytes(m.content_offset);
    let p4 = spec_u64_to_le_bytes(m.content_size);
    let p5 = spec_u64_to_le_bytes(m.name_offset);
    let p6 = spec_u32_to_le_bytes(m.name_size);
    assert(p0.len() == 8 && p1.len() == 8 && p3.len() == 8 && p4.len() == 8 && p5.len() == 8);
    assert(p2.len() == 4 && p6.len() == 4);
    let q1 = p0 + p1;
    let q2 = q1 + p2;
    let q3 = q2 + p3;
    let q4 = q3 + p4;
    let q5 = q4 + p5;
    assert(b == q5 + p6);
    assert(b.subrange(0, 8) =~= p0);
    assert(b.subrange(8, 16) =~= p1);
    assert(b.subrange(16, 20) =~= p2);
    assert(b.subrange(20, 28) =~= p3);
    assert(b.subrange(28, 36) =~= p4);
    assert(b.subrange(36, 44) =~= p5);
    assert(b.subrange(44, 48) =~= p6);
    assert(a.subrange(off, off + 8) =~= b.subrange(0, 8));
    assert(a.subrange(off + 8, off + 16) =~= b.subrange(8, 16));
    assert(a.subrange(off + 16, off + 20) =~= b.subrange(16, 20));
    assert(a.subrange(off + 20, off + 28) =~= b.subrange(20, 28));
    assert(a.subrange(off + 28, off + 36) =~= b.subrange(28, 36));
    assert(a.subrange(off + 36, off + 44) =~= b.subrange(36, 44));
    assert(a.subrange(off + 44, off + 48) =~= b.subrange(44, 48));
}

proof fn lemma_piece_lens(fs: Seq<FileView>)
    ensures
        piece_lens(name_pieces(fs)) == name_lens(fs),
        piece_lens(path_pieces(fs)) == path_lens(fs),
        piece_lens(content_pieces(fs)) == content_lens(fs),
        piece_lens(meta_pieces(fs)) == Seq::new(fs.len(), |i: int| 48int),
{
    assert(piece_lens(name_pieces(fs)) =~= name_lens(fs));
    assert(piece_lens(path_pieces(fs)) =~= path_lens(fs));
    assert(piece_lens(content_pieces(fs)) =~= content_lens(fs));
    assert forall|i: int| 0 <= i < fs.len() implies meta_bytes(spec_metadata(fs, i)).len() == 48 by {
        lemma_auto_spec_u64_to_from_le_bytes();
        lemma_auto_spec_u32_to_from_le_bytes();
        let m = spec_metadata(fs, i);
        assert(spec_u64_to_le_bytes(m.files_number).len() == 8);
        assert(spec_u64_to_le_bytes(m.path_offset).len() == 8);
        assert(spec_u32_to_le_bytes(m.path_size).len() == 4);
        assert(spec_u64_to_le_bytes(m.content_offset).len() == 8);
        assert(spec_u64_to_le_bytes(m.content_size).len() == 8);
        assert(spec_u64_to_le_bytes(m.name_offset).len() == 8);
        assert(spec_u32_to_le_bytes(m.name_size).len() == 4);
    }
    assert(piece_lens(meta_pieces(fs)) =~= Seq::new(fs.len(), |i: int| 48int));
}

/// The archive of `fs` is its head, its records, its names, its paths and
/// its contents, of these lengths.
proof fn lemma_regions(fs: Seq<FileView>)
    ensures
        head_bytes(spec_head(fs.len())).len() == ARCHIVE_HEAD_SIZE,
        concat(meta_pieces(fs)).len() == METADATA_SIZE * fs.len(),
        concat(name_pieces(fs)).len() == sum(name_lens(fs)),
        concat(path_pieces(fs)).len() == sum(path_lens(fs)),
        concat(content_pieces(fs)).len() == sum(content_lens(fs)),
        archive_bytes(fs).len() == archive_len(fs),
{
    lemma_auto_spec_u64_to_from_le_bytes();
    lemma_auto_spec_u32_to_from_le_bytes();
    let h = spec_head(fs.len());
    assert(spec_u32_to_le_bytes(h.metadata_size).len() == 4);
    assert(spec_u64_to_le_bytes(h.metadata_start).len() == 8);
    lemma_piece_lens(fs);
    lemma_concat_len(meta_pieces(fs));
    lemma_concat_len(name_pieces(fs));
    lemma_concat_len(path_pieces(fs));
    lemma_concat_len(content_pieces(fs));
    let ls = piece_lens(meta_pieces(fs));
    lemma_sum_take_const(ls, 48, fs.len() as int);
    lemma_sum_full(ls);
}

/// Reading the records of the archive of `fs` gives the first `k` records
/// that were written.
proof fn lemma_parse_packed(fs: Seq<FileView>, k: nat)
    requires
        packable(fs),
        k <= fs.len(),
    ensures
        spec_parse_metadata(archive_bytes(fs), fs.len(), k) == Ok::<Seq<Metadata>, crate::error::ArchiveError>(
            spec_metadata_table(fs).take(k as int),
        ),
    decreases k,
{
    let a = archive_bytes(fs);
    let n = fs.len();
    if k == 0 {
        assert(spec_metadata_table(fs).take(0) =~= Seq::<Metadata>::empty());
    } else {
        lemma_parse_packed(fs, (k - 1) as nat);
        lemma_regions(fs);
        let h = head_bytes(spec_head(n));
        let mp = meta_pieces(fs);
        let rest = concat(name_pieces(fs)) + concat(path_pieces(fs)) + concat(content_pieces(fs));
        assert(a =~= h + concat(mp) + rest);
        let i = k - 1;
        lemma_concat_piece(mp, i);
        lemma_concat_take_len(mp, i);
        lemma_piece_lens(fs);
        lemma_sum_take_const(piece_lens(mp), 48, i);
        let l = concat(mp.take(i)).len() as int;
        assert(l == 48 * i);
        assert(piece_lens(mp)[i] == 48);
        assert(mp[i] == meta_bytes(spec_metadata(fs, i)));
        assert(mp[i].len() == 48);
        lemma_sub(a, h, concat(mp), rest, l, l + 48);
        let off = record_offset(i);
        assert(off == h.len() + l);
        lemma_read_metadata_of_bytes(a, off, spec_metadata(fs, i));
        assert(spec_metadata_table(fs).take(i).push(spec_metadata(fs, i)) =~= spec_metadata_table(
            fs,
        ).take(k as int));
    }
}

/// The bytes that metadata record `i` of the archive of `fs` points at
/// are the name, path and content of file `i`.
proof fn lemma_extract_packed_one(fs: Seq<FileView>, i: int)
    requires
        packable(fs),
        0 <= i < fs.len(),
    ensures
        spec_extract_file(archive_bytes(fs), spec_metadata(fs, i)) == Ok::<FileView, crate::error::ArchiveError>(fs[i]),
{
    let a = archive_bytes(fs);
    let n = fs.len();
    let m = spec_metadata(fs, i);
    lemma_regions(fs);
    lemma_piece_lens(fs);
    let h = head_bytes(spec_head(n));
    let mb = concat(meta_pieces(fs));
    let nb = concat(name_pieces(fs));
    let pb = concat(path_pieces(fs));
    let cb = concat(content_pieces(fs));
    assert(name_fields(fs) =~= name_lens(fs));
    assert(path_fields(fs) =~= path_lens(fs));
    lemma_sum_take_step(name_lens(fs), i);
    lemma_sum_take_step(path_lens(fs), i);
    lemma_sum_take_step(content_lens(fs), i);
    crate::file::lemma_layout_bounds(fs, i + 1);
    // The name.
    lemma_concat_piece(name_pieces(fs), i);
    lemma_concat_take_len(name_pieces(fs), i);
    let ln = concat(name_pieces(fs).take(i)).len() as int;
    assert(a =~= (h + mb) + nb + (pb + cb));
    lemma_sub(a, h + mb, nb, pb + cb, ln, ln + name_bytes(fs[i]).len());
    assert(spec_read_bytes(a, m.name_offset, m.name_size as u64) == Ok::<Seq<u8>, crate::error::ArchiveError>(
        name_bytes(fs[i]),
    ));
    // The path.
    lemma_concat_piece(path_pieces(fs), i);
    lemma_concat_take_len(path_pieces(fs), i);
    let lp = concat(path_pieces(fs).take(i)).len() as int;
    assert(a =~= (h + mb + nb) + pb + cb);
    lemma_sub(a, h + mb + nb, pb, cb, lp, lp + path_bytes(fs[i]).len());
    assert(spec_read_bytes(a, m.path_offset, m.path_size as u64) == Ok::<Seq<u8>, crate::error::ArchiveError>(
        path_bytes(fs[i]),
    ));
    // The content.
    lemma_concat_piece(content_pieces(fs), i);
    lemma_concat_take_len(content_pieces(fs), i);
    let lc = concat(content_pieces(fs).take(i)).len() as int;
    assert(a =~= (h + mb + nb + pb) + cb + Seq::<u8>::empty());
    lemma_sub(a, h + mb + nb + pb, cb, Seq::<u8>::empty(), lc, lc + fs[i].content.len());
    assert(spec_read_bytes(a, m.content_offset, m.content_size) == Ok::<Seq<u8>, crate::error::ArchiveError>(
        fs[i].content,
    ));
    assert(spec_check_path(fs[i].path) is Ok);
}

/// Reading the files of the archive of `fs` gives its first `k` files.
proof fn lemma_extract_packed(fs: Seq<FileView>, k: nat)
    requires
        packable(fs),
        k <= fs.len(),
    ensures
        spec_extract_files(archive_bytes(fs), spec_metadata_table(fs), k) == Ok::<Seq<FileView>, crate::error::ArchiveError>(
            fs.take(k as int),
        ),
    decreases k,
{
    if k == 0 {
        assert(fs.take(0) =~= Seq::<FileView>::empty());
    } else {
        lemma_extract_packed(fs, (k - 1) as nat);
        lemma_extract_packed_one(fs, k - 1);
        assert(fs.take(k - 1).push(fs[k - 1]) =~= fs.take(k as int));
    }
}

/// Reading back an archive gives back the files it was packed from, in
/// their order, wherever the format can carry them (see [`packable`]).
pub proof fn lemma_read_back_packed(fs: Seq<FileView>)
    requires
        packable(fs),
    ensures
        spec_read_archive(archive_bytes(fs)) == Ok::<Seq<FileView>, crate::error::ArchiveError>(fs),
{
    let a = archive_bytes(fs);
    let n = fs.len();
    lemma_regions(fs);
    lemma_auto_spec_u64_to_from_le_bytes();
    lemma_auto_spec_u32_to_from_le_bytes();
    let hd = spec_head(n);
    let s32 = spec_u32_to_le_bytes(hd.metadata_size);
    let s64 = spec_u64_to_le_bytes(hd.metadata_start);
    assert(s32.len() == 4 && s64.len() == 8);
    assert(a.subrange(0, 4) =~= s32);
    assert(a.subrange(4, 12) =~= s64);
    let size = (METADATA_SIZE * n) as u32;
    assert(size == 48 * n);
    assert(spec_read_u32(a, 0) == Some(size));
    assert(spec_read_u64(a, 4) == Some(12u64));
    assert(size % 48 == 0 && size / 48 == n) by (nonlinear_arith)
        requires
            size == 48 * n,
    ;
    lemma_parse_packed(fs, n);
    lemma_extract_packed(fs, n);
    assert(spec_metadata_table(fs).take(n as int) =~= spec_metadata_table(fs));
    assert(fs.take(n as int) =~= fs);
    assert(spec_read_records(a, n) == Ok::<Seq<FileView>, crate::error::ArchiveError>(fs));
}

proof fn lemma_extracted_paths_checked(a: Seq<u8>, ms: Seq<Metadata>, k: nat)
    requires
        spec_extract_files(a, ms, k) is Ok,
    ensures
        forall|i: int|
            0 <= i < spec_extract_files(a, ms, k)->Ok_0.len() ==> spec_check_path(
                #[trigger] spec_extract_files(a, ms, k)->Ok_0[i].path,
            ) is Ok,
        spec_extract_files(a, ms, k)->Ok_0.len() == k,
    decreases k,
{
    if k > 0 {
        let prev = spec_extract_files(a, ms, (k - 1) as nat)->Ok_0;
        lemma_extracted_paths_checked(a, ms, (k - 1) as nat);
        let fs = spec_extract_files(a, ms, k)->Ok_0;
        assert(fs == prev.push(spec_extract_file(a, ms[k - 1])->Ok_0));
        assert forall|i: int| 0 <= i < fs.len() implies spec_check_path(
            #[trigger] fs[i].path,
        ) is Ok by {
            if i < k - 1 {
                assert(fs[i] == prev[i]);
            }
        }
    }
}

/// Every file that reading an archive gives has a path that may be
/// restored under an output directory: non-empty, relative, and free of
/// `..` components.
pub proof fn lemma_read_paths_stay_inside(a: Seq<u8>)
    requires
        spec_read_archive(a) is Ok,
    ensures
        forall|i: int|
            0 <= i < spec_read_archive(a)->Ok_0.len() ==> spec_check_path(
                #[trigger] spec_read_archive(a)->Ok_0[i].path,
            ) is Ok,
{
    let size = spec_read_u32(a, 0)->Some_0;
    let n = (size / (METADATA_SIZE as u32)) as nat;
    let ms = spec_parse_metadata(a, n, n)->Ok_0;
    lemma_extracted_paths_checked(a, ms, n);
}

/// A metadata record wholly inside `a` reads the same with bytes after `a`.
proof fn lemma_read_metadata_extend(a: Seq<u8>, extra: Seq<u8>, off: int)
    requires
        spec_read_metadata(a, off) is Some,
    ensures
        spec_read_metadata(a + extra, off) == spec_read_metadata(a, off),
{
    let b = a + extra;
    assert(b.subrange(off, off + 8) =~= a.subrange(off, off + 8));
    assert(b.subrange(off + 8, off + 16) =~= a.subrange(off + 8, off + 16));
    assert(b.subrange(off + 16, off + 20) =~= a.subrange(off + 16, off + 20));
    assert(b.subrange(off + 20, off + 28) =~= a.subrange(off + 20, off + 28));
    assert(b.subrange(off + 28, off + 36) =~= a.subrange(off + 28, off + 36));
    assert(b.subrange(off + 36, off + 44) =~= a.subrange(off + 36, off + 44));
    assert(b.subrange(off + 44, off + 48) =~= a.subrange(off + 44, off + 48));
}

/// A range wholly inside `a` reads the same with bytes after `a`.
proof fn lemma_read_bytes_extend(a: Seq<u8>, extra: Seq<u8>, offset: u64, size: u64)
    requires
        spec_read_bytes(a, offset, size) is Ok,
    ensures
        spec_read_bytes(a + extra, offset, size) == spec_read_bytes(a, offset, size),
{
    assert((a + extra).subrange(offset as int, offset + size) =~= a.subrange(
        offset as int,
        offset + size,
    ));
}

proof fn lemma_parse_metadata_extend(a: Seq<u8>, extra: Seq<u8>, n: nat, k: nat)
    requires
        spec_parse_metadata(a, n, k) is Ok,
    ensures
        spec_parse_metadata(a + extra, n, k) == spec_parse_metadata(a, n, k),
    decreases k,
{
    if k > 0 {
        lemma_parse_metadata_extend(a, extra, n, (k - 1) as nat);
        lemma_read_metadata_extend(a, extra, record_offset(k - 1));
    }
}

proof fn lemma_extract_files_extend(a: Seq<u8>, extra: Seq<u8>, ms: Seq<Metadata>, k: nat)
    requires
        spec_extract_files(a, ms, k) is Ok,
    ensures
        spec_extract_files(a + extra, ms, k) == spec_extract_files(a, ms, k),
    decreases k,
{
    if k > 0 {
        lemma_extract_files_extend(a, extra, ms, (k - 1) as nat);
        let m = ms[k - 1];
        lemma_read_bytes_extend(a, extra, m.name_offset, m.name_size as u64);
        lemma_read_bytes_extend(a, extra, m.path_offset, m.path_size as u64);
        lemma_read_bytes_extend(a, extra, m.content_offset, m.content_size);
    }
}

/// Bytes after an archive that reads without error leave what it reads
/// unchanged.
pub proof fn lemma_read_ignores_trailing_bytes(a: Seq<u8>, extra: Seq<u8>)
    requires
        spec_read_archive(a) is Ok,
    ensures
        spec_read_archive(a + extra) == spec_read_archive(a),
{
    let b = a + extra;
    assert(b.subrange(0, 4) =~= a.subrange(0, 4));
    assert(b.subrange(4, 12) =~= a.subrange(4, 12));
    let size = spec_read_u32(a, 0)->Some_0;
    let n = (size / (METADATA_SIZE as u32)) as nat;
    lemma_parse_metadata_extend(a, extra, n, n);
    let ms = spec_parse_metadata(a, n, n)->Ok_0;
    lemma_extract_files_extend(a, extra, ms, n);
}

/// Reading back the archive of files whose paths are relative (non-empty,
/// not starting with `/`, without a `..` component) gives those files back,
/// where the lengths fit the format: hidden files such as `.gitignore`
/// included.
pub proof fn lemma_read_back_relative_files(fs: Seq<FileView>)
    requires
        archive_len(fs) <= usize::MAX,
        METADATA_SIZE * fs.len() <= u32::MAX,
        forall|i: int| 0 <= i < fs.len() ==> name_bytes(#[trigger] fs[i]).len() <= u32::MAX,
        forall|i: int| 0 <= i < fs.len() ==> path_bytes(#[trigger] fs[i]).len() <= u32::MAX,
        forall|i: int| 0 <= i < fs.len() ==> is_relative_path(#[trigger] fs[i].path),
    ensures
        spec_read_archive(archive_bytes(fs)) == Ok::<Seq<FileView>, crate::error::ArchiveError>(fs),
{
    assert forall|i: int| 0 <= i < fs.len() implies spec_check_path(#[trigger] fs[i].path) is Ok by {
        lemma_relative_paths_accepted(fs[i].path);
    }
    lemma_read_back_packed(fs);
}

} // verus!
