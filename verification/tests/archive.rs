use rust_file::error::ArchiveError;
use rust_file::file::{
    append_archive_head, append_metadata, archive_layout_fits, create_archive, pack_archive, path_archive_bytes,
    populate_metadata, ArchiveHead, FileInfo, Metadata, ARCHIVE_HEAD_SIZE, METADATA_SIZE,
};
use rust_file::read_back::{
    read_archive, read_bytes, read_metadata, read_u32, read_u64, validate_relative_path,
};

fn file(name: &str, path: &str, content: &[u8]) -> FileInfo {
    FileInfo {
        name: name.to_string(),
        path: path.to_string(),
        content: content.to_vec(),
    }
}

fn sample() -> Vec<FileInfo> {
    vec![
        file("a.txt", "a.txt", b"hello"),
        file("b.bin", "dir/b.bin", &[0, 1, 2]),
    ]
}

#[test]
fn head_and_record_sizes() {
    assert_eq!(ARCHIVE_HEAD_SIZE, 12);
    assert_eq!(METADATA_SIZE, 48);
}

#[test]
fn populate_metadata_places_names_paths_contents() {
    let files = sample();
    let meta = populate_metadata(&files);
    assert_eq!(meta.len(), 2);
    // names start after the head and two records: 12 + 96 = 108
    assert_eq!(
        meta[0],
        Metadata {
            files_number: 2,
            path_offset: 118,
            path_size: 5,
            content_offset: 132,
            content_size: 5,
            name_offset: 108,
            name_size: 5,
        }
    );
    assert_eq!(
        meta[1],
        Metadata {
            files_number: 2,
            path_offset: 123,
            path_size: 9,
            content_offset: 137,
            content_size: 3,
            name_offset: 113,
            name_size: 5,
        }
    );
}

#[test]
fn populate_metadata_of_nothing() {
    let meta = populate_metadata(&Vec::new());
    assert!(meta.is_empty());
}

#[test]
fn create_archive_counts_record_bytes() {
    let meta = populate_metadata(&sample());
    let head = create_archive(&meta);
    assert_eq!(
        head,
        ArchiveHead {
            metadata_size: 96,
            metadata_start: 12
        }
    );
}

#[test]
fn path_bytes_are_utf8() {
    assert_eq!(path_archive_bytes("dir/é"), "dir/é".as_bytes().to_vec());
}

#[test]
fn head_bytes_are_little_endian() {
    let mut out = vec![9u8];
    append_archive_head(
        &mut out,
        &ArchiveHead {
            metadata_size: 0x0102_0304,
            metadata_start: 12,
        },
    );
    assert_eq!(out, vec![9, 4, 3, 2, 1, 12, 0, 0, 0, 0, 0, 0, 0]);
}

#[test]
fn metadata_bytes_are_little_endian_in_field_order() {
    let mut out = Vec::new();
    append_metadata(
        &mut out,
        &Metadata {
            files_number: 1,
            path_offset: 2,
            path_size: 3,
            content_offset: 4,
            content_size: 5,
            name_offset: 6,
            name_size: 7,
        },
    );
    let mut expected = Vec::new();
    expected.extend_from_slice(&1u64.to_le_bytes());
    expected.extend_from_slice(&2u64.to_le_bytes());
    expected.extend_from_slice(&3u32.to_le_bytes());
    expected.extend_from_slice(&4u64.to_le_bytes());
    expected.extend_from_slice(&5u64.to_le_bytes());
    expected.extend_from_slice(&6u64.to_le_bytes());
    expected.extend_from_slice(&7u32.to_le_bytes());
    assert_eq!(out.len(), 48);
    assert_eq!(out, expected);
}

#[test]
fn pack_archive_layout() {
    let files = sample();
    let archive = pack_archive(&files);
    assert_eq!(archive.len(), 140);
    assert_eq!(&archive[0..4], &96u32.to_le_bytes());
    assert_eq!(&archive[4..12], &12u64.to_le_bytes());
    assert_eq!(&archive[108..118], b"a.txtb.bin");
    assert_eq!(&archive[118..132], b"a.txtdir/b.bin");
    assert_eq!(&archive[132..140], b"hello\x00\x01\x02");
}

#[test]
fn read_back_gives_the_packed_files() {
    let files = vec![
        file("é.txt", "x/é.txt", "ünïcode".as_bytes()),
        file("empty", "./empty", b""),
        file("c", "c", &[255, 0, 255]),
    ];
    let archive = pack_archive(&files);
    assert_eq!(read_archive(&archive), Ok(files));
}

#[test]
fn read_back_of_no_files() {
    let archive = pack_archive(&Vec::new());
    assert_eq!(archive.len(), 12);
    assert_eq!(read_archive(&archive), Ok(Vec::new()));
}

#[test]
fn read_archive_short_head() {
    assert_eq!(read_archive(&[0, 0, 0]), Err(ArchiveError::UnexpectedEof));
    assert_eq!(read_archive(&[0; 11]), Err(ArchiveError::UnexpectedEof));
}

#[test]
fn read_archive_bad_start() {
    let mut archive = pack_archive(&sample());
    archive[4] = 13;
    assert_eq!(read_archive(&archive), Err(ArchiveError::MetadataSizeMismatch));
}

#[test]
fn read_archive_bad_size() {
    let mut archive = pack_archive(&sample());
    archive[0] = 95;
    assert_eq!(read_archive(&archive), Err(ArchiveError::MetadataSizeMismatch));
}

#[test]
fn read_archive_start_too_large() {
    let mut archive = pack_archive(&sample());
    if usize::MAX as u64 == u64::MAX {
        // every u64 fits in usize here; the start is only mismatched
        archive[11] = 0xff;
        assert_eq!(read_archive(&archive), Err(ArchiveError::MetadataSizeMismatch));
    } else {
        archive[11] = 0xff;
        assert_eq!(read_archive(&archive), Err(ArchiveError::MetadataStartTooLarge));
    }
}

#[test]
fn read_archive_truncated_records() {
    let archive = pack_archive(&sample());
    assert_eq!(read_archive(&archive[..100]), Err(ArchiveError::UnexpectedEof));
}

#[test]
fn read_archive_count_mismatch() {
    let mut archive = pack_archive(&sample());
    archive[12 + 48] = 3;
    assert_eq!(read_archive(&archive), Err(ArchiveError::FileCountMismatch));
}

#[test]
fn read_archive_truncated_content() {
    let archive = pack_archive(&sample());
    assert_eq!(read_archive(&archive[..139]), Err(ArchiveError::UnexpectedEof));
}

#[test]
fn read_archive_name_not_utf8() {
    let mut archive = pack_archive(&sample());
    archive[108] = 0xff;
    assert_eq!(read_archive(&archive), Err(ArchiveError::NameNotUtf8));
}

#[test]
fn read_archive_path_not_utf8() {
    let mut archive = pack_archive(&sample());
    archive[118] = 0xc3;
    assert_eq!(read_archive(&archive), Err(ArchiveError::PathNotUtf8));
}

#[test]
fn read_archive_refuses_escaping_paths() {
    for path in ["../evil", "/etc/passwd", "a/../../b", "x/.."] {
        let archive = pack_archive(&vec![file("n", path, b"c")]);
        assert_eq!(read_archive(&archive), Err(ArchiveError::PathEscapes), "{path}");
    }
}

#[test]
fn read_archive_refuses_empty_path() {
    let archive = pack_archive(&vec![file("n", "", b"c")]);
    assert_eq!(read_archive(&archive), Err(ArchiveError::EmptyPath));
}

#[test]
fn validate_paths() {
    assert_eq!(validate_relative_path("a/b"), Ok(()));
    assert_eq!(validate_relative_path("./a"), Ok(()));
    assert_eq!(validate_relative_path("a/...b/..c"), Ok(()));
    assert_eq!(validate_relative_path("..."), Ok(()));
    assert_eq!(validate_relative_path(""), Err(ArchiveError::EmptyPath));
    assert_eq!(validate_relative_path(".."), Err(ArchiveError::PathEscapes));
    assert_eq!(validate_relative_path("a/.."), Err(ArchiveError::PathEscapes));
    assert_eq!(validate_relative_path("a//../b"), Err(ArchiveError::PathEscapes));
    assert_eq!(validate_relative_path("/a"), Err(ArchiveError::PathEscapes));
}

#[test]
fn read_bytes_ranges() {
    let data = [1u8, 2, 3, 4, 5];
    assert_eq!(read_bytes(&data, 1, 3), Ok(&data[1..4]));
    assert_eq!(read_bytes(&data, 5, 0), Ok(&data[5..5]));
    assert_eq!(read_bytes(&data, 3, 3), Err(ArchiveError::UnexpectedEof));
    assert_eq!(read_bytes(&data, u64::MAX - 1, 10), if usize::MAX as u64 == u64::MAX {
        Err(ArchiveError::RangeOverflow)
    } else {
        Err(ArchiveError::OffsetTooLarge)
    });
}

#[test]
fn read_integers() {
    let data = [1u8, 0, 0, 0, 2, 0, 0, 0, 0, 0, 0, 0];
    assert_eq!(read_u32(&data, 0), Ok(1));
    assert_eq!(read_u64(&data, 4), Ok(2));
    assert_eq!(read_u32(&data, 9), Err(ArchiveError::UnexpectedEof));
    assert_eq!(read_u64(&data, 5), Err(ArchiveError::UnexpectedEof));
}

#[test]
fn read_metadata_record() {
    let m = Metadata {
        files_number: 1,
        path_offset: 2,
        path_size: 3,
        content_offset: 4,
        content_size: 5,
        name_offset: 6,
        name_size: 7,
    };
    let mut data = vec![0u8; 3];
    append_metadata(&mut data, &m);
    assert_eq!(read_metadata(&data, 3), Ok(m));
    assert_eq!(read_metadata(&data, 4), Err(ArchiveError::UnexpectedEof));
}

#[test]
fn trailing_bytes_are_ignored() {
    let files = sample();
    let mut archive = pack_archive(&files);
    archive.extend_from_slice(b"trailing garbage");
    assert_eq!(read_archive(&archive), Ok(files));
}

#[test]
fn layout_of_small_files_fits() {
    assert!(archive_layout_fits(&sample()));
    assert!(archive_layout_fits(&Vec::new()));
}
