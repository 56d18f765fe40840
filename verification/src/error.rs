use vstd::prelude::*;

verus! {

/// Why reading, writing, sealing or opening an archive failed.
#[derive(Clone, Copy, Debug, PartialEq, Eq, Structural)]
pub enum ArchiveError {
    /// The archive ended before a field or range it announces.
    UnexpectedEof,
    /// An offset does not fit in `usize`.
    OffsetTooLarge,
    /// A size does not fit in `usize`.
    SizeTooLarge,
    /// An offset plus a size does not fit in `usize`.
    RangeOverflow,
    /// The header's metadata start does not fit in `usize`.
    MetadataStartTooLarge,
    /// The header does not describe this archive format.
    MetadataSizeMismatch,
    /// The offset of a metadata record does not fit in `usize`.
    MetadataOffsetOverflow,
    /// A metadata record disagrees with the header on the number of files.
    FileCountMismatch,
    /// A file name is not valid UTF-8.
    NameNotUtf8,
    /// A file path is not valid UTF-8.
    PathNotUtf8,
    /// A file path is empty.
    EmptyPath,
    /// A file path is absolute or climbs out with `..`.
    PathEscapes,
    /// The sealed archive does not authenticate under the derived key.
    DecryptFailed,
    /// The opened archive is not a zstd stream that decodes.
    DecompressFailed,
    /// zstd reported an error while compressing.
    CompressFailed,
    /// The compressed archive is too long for XChaCha20-Poly1305.
    EncryptFailed,
    /// The operating system's random source failed.
    RandomUnavailable,
}

} // verus!
