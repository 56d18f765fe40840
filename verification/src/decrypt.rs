use vstd::prelude::*;
use vstd::slice::{slice_subrange, slice_to_vec};

use crate::compression::{decompress_bytes, zstd_decompressed};
use crate::encryption::{
    argon2_key, array_from, argon2_hash, xchacha_open, xchacha_opened, Encryption,
    MAX_PASSWORD_LEN,
};
use crate::error::ArchiveError;

verus! {

broadcast use {
    vstd::seq::group_seq_axioms,
    vstd::slice::group_slice_axioms,
    vstd::array::group_array_axioms,
};

/// Bytes before the sealed part of an archive file: the salt, then the nonce.
pub const SEALED_START: usize = 40;

/// The bytes a result holds, or its error.
pub open spec fn result_bytes(r: Result<Vec<u8>, ArchiveError>) -> Result<Seq<u8>, ArchiveError> {
    match r {
        Ok(v) => Ok(v@),
        Err(e) => Err(e),
    }
}

/// What opening `sealed` under `key` and `nonce`, then decompressing it,
/// gives.
pub open spec fn opened_archive(key: Seq<u8>, nonce: Seq<u8>, sealed: Seq<u8>) -> Result<
    Seq<u8>,
    ArchiveError,
> {
    match xchacha_opened(key, nonce, sealed) {
        None => Err(ArchiveError::DecryptFailed),
        Some(compressed) => match zstd_decompressed(compressed) {
            None => Err(ArchiveError::DecompressFailed),
            Some(plain) => Ok(plain),
        },
    }
}

/// What decrypting the archive file `file` with `password` gives: the salt
/// is its first 16 bytes, the nonce the next 24, and the sealed, compressed
/// archive the rest.
pub open spec fn decrypted_archive(password: Seq<u8>, file: Seq<u8>) -> Result<Seq<u8>, ArchiveError> {
    if file.len() < SEALED_START {
        Err(ArchiveError::UnexpectedEof)
    } else {
        opened_archive(
            argon2_key(password, file.subrange(0, 16)),
            file.subrange(16, 40),
            file.subrange(40, file.len() as int),
        )
    }
}

impl Encryption {
    /// Takes the salt and the nonce from the start of an archive file and
    /// returns the sealed bytes that follow them.
    pub fn get_salt_n_nounce(&mut self, file: &[u8]) -> (r: Result<Vec<u8>, ArchiveError>)
        ensures
            final(self).password == old(self).password,
            final(self).key == old(self).key,
            file@.len() < SEALED_START <==> r is Err,
            r matches Err(e) ==> e == ArchiveError::UnexpectedEof && final(self).salt == old(
                self,
            ).salt && final(self).nonce == old(self).nonce,
            r matches Ok(rest) ==> {
                &&& final(self).salt@ == file@.subrange(0, 16)
                &&& final(self).nonce@ == file@.subrange(16, 40)
                &&& rest@ == file@.subrange(40, file@.len() as int)
            },
    {
        if file.len() < SEALED_START {
            return Err(ArchiveError::UnexpectedEof);
        }
        self.salt = array_from(file, 0);
        self.nonce = array_from(file, 16);
        Ok(slice_to_vec(slice_subrange(file, SEALED_START, file.len())))
    }

    /// Derives the key again from the password and the salt already held.
    pub fn recreate_key_from_exist_salt(&mut self)
        requires
            old(self).password@.len() <= MAX_PASSWORD_LEN,
        ensures
            final(self).key@ == argon2_key(old(self).password@, old(self).salt@),
            final(self).password == old(self).password,
            final(self).nonce == old(self).nonce,
            final(self).salt == old(self).salt,
    {
        self.key = argon2_hash(self.password.as_slice(), &self.salt);
    }

    /// Opens `data` under the key and nonce held, then decompresses it.
    /// Data that authenticates but is not a zstd stream gives
    /// `DecompressFailed`.
    pub fn decrypt_n_compress_to_dst(&self, data: &[u8]) -> (r: Result<Vec<u8>, ArchiveError>)
        ensures
            result_bytes(r) == opened_archive(self.key@, self.nonce@, data@),
    {
        let compressed = match xchacha_open(&self.key, &self.nonce, data) {
            Some(compressed) => compressed,
            None => return Err(ArchiveError::DecryptFailed),
        };
        match decompress_bytes(compressed.as_slice()) {
            Some(plain) => Ok(plain),
            None => Err(ArchiveError::DecompressFailed),
        }
    }
}

/// Decrypts and decompresses an archive file with `password`.
pub fn decrypt_and_decomp(file: &[u8], password: &[u8]) -> (r: Result<Vec<u8>, ArchiveError>)
    requires
        file@.len() >= SEALED_START ==> password@.len() <= MAX_PASSWORD_LEN,
    ensures
        result_bytes(r) == decrypted_archive(password@, file@),
{
    let mut encryption = Encryption {
        password: slice_to_vec(password),
        key: [0u8; 32],
        nonce: [0u8; 24],
        salt: [0u8; 16],
    };
    let content = encryption.get_salt_n_nounce(file)?;
    encryption.recreate_key_from_exist_salt();
    encryption.decrypt_n_compress_to_dst(content.as_slice())
}

/// Decrypts and decompresses an archive file with `password`, where that
/// succeeds.
pub fn decrypt_and_decomp_bytes(data: &[u8], password: &[u8]) -> (r: Vec<u8>)
    requires
        data@.len() >= SEALED_START ==> password@.len() <= MAX_PASSWORD_LEN,
        decrypted_archive(password@, data@) is Ok,
    ensures
        decrypted_archive(password@, data@) == Ok::<Seq<u8>, ArchiveError>(r@),
{
    let mut encryption = Encryption {
        password: slice_to_vec(password),
        key: [0u8; 32],
        nonce: [0u8; 24],
        salt: [0u8; 16],
    };
    encryption.salt = array_from(data, 0);
    encryption.nonce = array_from(data, 16);
    encryption.recreate_key_from_exist_salt();
    match encryption.decrypt_n_compress_to_dst(slice_subrange(data, SEALED_START, data.len())) {
        Ok(plain) => plain,
        Err(_) => Vec::new(),
    }
}

/// [`decrypt_and_decomp_bytes`] where decryption succeeds, `None` where it
/// does not.
pub fn try_decrypt_and_decomp_bytes(data: &[u8], password: &[u8]) -> (r: Option<Vec<u8>>)
    requires
        data@.len() >= SEALED_START ==> password@.len() <= MAX_PASSWORD_LEN,
    ensures
        r matches Some(plain) ==> decrypted_archive(password@, data@) == Ok::<
            Seq<u8>,
            ArchiveError,
        >(plain@),
        r is None <==> decrypted_archive(password@, data@) is Err,
{
    match decrypt_and_decomp(data, password) {
        Ok(_) => Some(decrypt_and_decomp_bytes(data, password)),
        Err(_) => None,
    }
}

} // verus!
