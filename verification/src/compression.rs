use vstd::prelude::*;
use crate::seqs::opt_bytes;

verus! {

/// Smallest compression level the tool offers.
pub const MIN: i32 = -7;

/// Largest compression level the tool offers.
pub const MAX: i32 = 22;

/// What zstd's `encode_all` produces for `data` at `level`: `None` where it
/// reports an error.
pub uninterp spec fn zstd_compressed(data: Seq<u8>, level: i32) -> Option<Seq<u8>>;

/// What zstd's `decode_all` produces for `data`: `None` where `data` is not a
/// sequence of zstd frames it can decode.
pub uninterp spec fn zstd_decompressed(data: Seq<u8>) -> Option<Seq<u8>>;

/// Calls `zstd::stream::encode_all` on `data` at `level`.
/// Trusted: the result is the named `zstd_compressed(data, level)`, and zstd
/// being lossless, decoding a successful result gives `data` back.
#[verifier::external_body]
fn zstd_encode_all(data: &[u8], level: i32) -> (r: Option<Vec<u8>>)
    ensures
        opt_bytes(r) == zstd_compressed(data@, level),
        r matches Some(c) ==> zstd_decompressed(c@) == Some(data@),
{
    match zstd::stream::encode_all(data, level) {
        Ok(c) => Some(c),
        Err(_) => None,
    }
}

/// Calls `zstd::stream::decode_all` on `data`.
/// Trusted: the result is the named `zstd_decompressed(data)`.
#[verifier::external_body]
fn zstd_decode_all(data: &[u8]) -> (r: Option<Vec<u8>>)
    ensures
        opt_bytes(r) == zstd_decompressed(data@),
{
    match zstd::stream::decode_all(data) {
        Ok(p) => Some(p),
        Err(_) => None,
    }
}

/// Whether `level` is one of the compression levels the tool offers.
pub fn is_compression_level(level: i32) -> (r: bool)
    ensures
        r == (MIN <= level <= MAX),
{
    MIN <= level && level <= MAX
}

/// Compresses `data` with zstd at `level`; `None` where zstd reports an error.
pub fn compress(data: &Vec<u8>, level: i32) -> (r: Option<Vec<u8>>)
    requires
        MIN <= level <= MAX,
    ensures
        opt_bytes(r) == zstd_compressed(data@, level),
        r matches Some(c) ==> zstd_decompressed(c@) == Some(data@),
{
    zstd_encode_all(data.as_slice(), level)
}

/// Decompresses zstd-framed `data`; `None` where it cannot be decoded.
pub fn decompress_bytes(data: &[u8]) -> (r: Option<Vec<u8>>)
    ensures
        opt_bytes(r) == zstd_decompressed(data@),
{
    zstd_decode_all(data)
}

} // verus!
