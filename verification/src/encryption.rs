use argon2::Argon2;
use chacha20poly1305::aead::{Aead, KeyInit};
use chacha20poly1305::{XChaCha20Poly1305, XNonce};
use rand::rngs::SysRng;
use rand::TryRng;
use vstd::array::array_fill_for_copy_types;
use vstd::prelude::*;
use vstd::slice::{slice_subrange, slice_to_vec};
use zeroize::Zeroize;

use crate::compression::{compress, zstd_compressed, MAX, MIN};
use crate::decrypt::{decrypted_archive, result_bytes};
use crate::error::ArchiveError;
use crate::seqs::append_bytes;

verus! {

broadcast use {
    vstd::seq::group_seq_axioms,
    vstd::slice::group_slice_axioms,
    vstd::array::group_array_axioms,
};

/// Longest password that Argon2 accepts.
pub const MAX_PASSWORD_LEN: usize = 0xFFFF_FFFF;

/// XChaCha20-Poly1305 seals a message only while it is shorter than this
/// many bytes (`u32::MAX` blocks of 64 bytes).
pub const MAX_SEALED_LEN: u64 = 0x3F_FFFF_FFC0;

/// The key that Argon2id, with the `argon2` crate's default parameters,
/// derives from `password` and `salt`.
pub uninterp spec fn argon2_key(password: Seq<u8>, salt: Seq<u8>) -> Seq<u8>;

/// What XChaCha20-Poly1305 makes of `plaintext` under `key` and `nonce`,
/// with no associated data: the ciphertext followed by the tag.
pub uninterp spec fn xchacha_sealed(key: Seq<u8>, nonce: Seq<u8>, plaintext: Seq<u8>) -> Seq<u8>;

/// What XChaCha20-Poly1305 opens `ciphertext` to under `key` and `nonce`,
/// with no associated data: `None` where the tag does not authenticate.
pub uninterp spec fn xchacha_opened(key: Seq<u8>, nonce: Seq<u8>, ciphertext: Seq<u8>) -> Option<
    Seq<u8>,
>;

/// Calls `Argon2::default().hash_password_into(password, salt, ..)` into a
/// 32-byte key. Trusted: the key is the named `argon2_key(password, salt)`.
/// The crate's source fails only for a password longer than `u32::MAX`
/// bytes (left out by `requires`), a salt outside 8 to `u32::MAX` bytes or
/// an output outside 4 to `u32::MAX` bytes (neither can happen here).
#[verifier::external_body]
pub(crate) fn argon2_hash(password: &[u8], salt: &[u8; 16]) -> (r: [u8; 32])
    requires
        password@.len() <= MAX_PASSWORD_LEN,
    ensures
        r@ == argon2_key(password@, salt@),
{
    let mut key = [0u8; 32];
    Argon2::default().hash_password_into(password, salt, &mut key).expect("argon2 rejected its input");
    key
}

/// Calls `XChaCha20Poly1305::new(key).encrypt(nonce, plaintext)`.
/// Trusted: the result is the named `xchacha_sealed(key, nonce, plaintext)`,
/// it is the plaintext's length plus the 16-byte tag, and, the cipher being
/// an AEAD, opening it under the same key and nonce gives the plaintext
/// back. The crate's source fails only for a plaintext of `u32::MAX` blocks
/// of 64 bytes or more, which `requires` leaves out.
#[verifier::external_body]
fn xchacha_seal(key: &[u8; 32], nonce: &[u8; 24], plaintext: &[u8]) -> (r: Vec<u8>)
    requires
        plaintext@.len() < MAX_SEALED_LEN,
    ensures
        r@ == xchacha_sealed(key@, nonce@, plaintext@),
        r@.len() == plaintext@.len() + 16,
        xchacha_opened(key@, nonce@, r@) == Some(plaintext@),
{
    XChaCha20Poly1305::new(key.into()).encrypt(XNonce::from_slice(nonce), plaintext).expect(
        "plaintext too long",
    )
}

/// Calls `XChaCha20Poly1305::new(key).decrypt(nonce, ciphertext)`, mapping
/// its error to `None`. Trusted: the result is the named
/// `xchacha_opened(key, nonce, ciphertext)`.
#[verifier::external_body]
pub(crate) fn xchacha_open(key: &[u8; 32], nonce: &[u8; 24], ciphertext: &[u8]) -> (r: Option<Vec<u8>>)
    ensures
        r matches Some(p) ==> xchacha_opened(key@, nonce@, ciphertext@) == Some(p@),
        r is None ==> xchacha_opened(key@, nonce@, ciphertext@) is None,
{
    match XChaCha20Poly1305::new(key.into()).decrypt(XNonce::from_slice(nonce), ciphertext) {
        Ok(p) => Some(p),
        Err(_) => None,
    }
}

/// Calls `SysRng.try_fill_bytes` on `N` bytes, mapping its error to `None`.
/// The bytes come from the operating system's random source: nothing is
/// stated of them.
#[verifier::external_body]
fn os_random<const N: usize>() -> (r: Option<[u8; N]>) {
    let mut bytes = [0u8; N];
    match SysRng.try_fill_bytes(&mut bytes) {
        Ok(()) => Some(bytes),
        Err(_) => None,
    }
}

/// Calls `Zeroize::zeroize` on a byte vector. Trusted: the crate's source
/// overwrites every byte (and the spare capacity) with zero and clears the
/// vector.
#[verifier::external_body]
fn zeroize_vec(v: &mut Vec<u8>)
    ensures
        final(v)@.len() == 0,
    opens_invariants none
    no_unwind
{
    v.zeroize();
}

/// Calls `Zeroize::zeroize` on a byte array. Trusted: the crate's source
/// overwrites every byte with zero.
#[verifier::external_body]
fn zeroize_array<const N: usize>(a: &mut [u8; N])
    ensures
        final(a)@ == Seq::new(N as nat, |i: int| 0u8),
    opens_invariants none
    no_unwind
{
    a.zeroize();
}

/// The password, derived key, nonce and salt of one archive.
pub struct Encryption {
    pub password: Vec<u8>,
    pub key: [u8; 32],
    /// Stored in the archive.
    pub nonce: [u8; 24],
    /// Stored in the archive.
    pub salt: [u8; 16],
}

/// The bytes `\n` and `\r`.
pub open spec fn is_line_end(b: u8) -> bool {
    b == 0x0a || b == 0x0d
}

/// `b` without the line-end bytes at its end.
pub open spec fn trim_line_end(b: Seq<u8>) -> Seq<u8>
    decreases b.len(),
{
    if b.len() > 0 && is_line_end(b.last()) {
        trim_line_end(b.drop_last())
    } else {
        b
    }
}

/// What trimming the line end keeps is a prefix of the bytes, byte for
/// byte; every byte it drops is `\n` or `\r`, and the last byte it keeps,
/// if any, is neither.
pub proof fn lemma_trim_line_end_shape(b: Seq<u8>)
    ensures
        trim_line_end(b).len() <= b.len(),
        trim_line_end(b) == b.take(trim_line_end(b).len() as int),
        forall|j: int|
            trim_line_end(b).len() <= j < b.len() ==> (#[trigger] b[j] == 0x0a || b[j] == 0x0d),
        trim_line_end(b).len() > 0 ==> !(b[trim_line_end(b).len() - 1] == 0x0a || b[trim_line_end(
            b,
        ).len() - 1] == 0x0d),
    decreases b.len(),
{
    if b.len() > 0 && is_line_end(b.last()) {
        let d = b.drop_last();
        lemma_trim_line_end_shape(d);
        let t = trim_line_end(d);
        assert(d.take(t.len() as int) =~= b.take(t.len() as int));
        assert forall|j: int| t.len() <= j < b.len() implies (#[trigger] b[j] == 0x0a || b[j]
            == 0x0d) by {
            if j < d.len() {
                assert(b[j] == d[j]);
            }
        }
    } else {
        assert(b.take(b.len() as int) =~= b);
    }
}

/// The `N` bytes of `b` from `start`, as an array.
pub fn array_from<const N: usize>(b: &[u8], start: usize) -> (r: [u8; N])
    requires
        start + N <= b@.len(),
    ensures
        r@ == b@.subrange(start as int, start + N),
{
    let mut r: [u8; N] = array_fill_for_copy_types(0u8);
    let mut i: usize = 0;
    while i < N
        invariant
            start + N <= b@.len(),
            b@.len() == b.len(),
            i <= N,
            r@.len() == N,
            forall|j: int| 0 <= j < i ==> r@[j] == b@[start + j],
        decreases N - i,
    {
        r[i] = b[start + i];
        i += 1;
    }
    assert(r@ =~= b@.subrange(start as int, start + N));
    r
}

impl Encryption {
    /// Takes the password from a line read from the terminal: the line
    /// without the `\n` and `\r` bytes that end it.
    pub fn set_password(&mut self, answer: &str)
        ensures
            final(self).password@ == trim_line_end(vstd::utf8::encode_utf8(answer@)),
            final(self).password@ == vstd::utf8::encode_utf8(answer@).take(
                final(self).password@.len() as int,
            ),
            forall|j: int|
                final(self).password@.len() <= j < vstd::utf8::encode_utf8(answer@).len() ==> (
                #[trigger] vstd::utf8::encode_utf8(answer@)[j] == 0x0a
                    || vstd::utf8::encode_utf8(answer@)[j] == 0x0d),
            final(self).password@.len() > 0 ==> !(final(self).password@.last() == 0x0a
                || final(self).password@.last() == 0x0d),
            final(self).key == old(self).key,
            final(self).nonce == old(self).nonce,
            final(self).salt == old(self).salt,
    {
        let b = answer.as_bytes();
        let mut end = b.len();
        assert(b@.take(end as int) =~= b@);
        while end > 0 && (b[end - 1] == 0x0a || b[end - 1] == 0x0d)
            invariant
                end <= b@.len(),
                trim_line_end(b@.take(end as int)) == trim_line_end(b@),
            decreases end,
        {
            assert(b@.take(end as int).drop_last() =~= b@.take(end - 1));
            end -= 1;
        }
        self.password = slice_to_vec(slice_subrange(b, 0, end));
        assert(self.password@ =~= b@.take(end as int));
        proof {
            lemma_trim_line_end_shape(b@);
        }
    }

    /// Draws a fresh random salt and derives the key from the password and
    /// that salt.
    pub fn derive_key(&mut self) -> (r: Result<(), ArchiveError>)
        requires
            old(self).password@.len() <= MAX_PASSWORD_LEN,
        ensures
            final(self).password == old(self).password,
            final(self).nonce == old(self).nonce,
            r is Ok ==> final(self).key@ == argon2_key(final(self).password@, final(self).salt@),
            r matches Err(e) ==> e == ArchiveError::RandomUnavailable && final(self).key
                == old(self).key && final(self).salt == old(self).salt,
    {
        match os_random::<16>() {
            Some(salt) => self.salt = salt,
            None => return Err(ArchiveError::RandomUnavailable),
        }
        self.recreate_key_from_exist_salt();
        Ok(())
    }

    /// Seals `contents` under the key held and `nonce`, which it keeps: the
    /// salt, then the nonce, then the ciphertext with its tag.
    pub fn encrypt_with_nonce(&mut self, contents: &mut Vec<u8>, nonce: [u8; 24]) -> (r: Result<
        Vec<u8>,
        ArchiveError,
    >)
        ensures
            final(contents)@ == old(contents)@,
            final(self).password == old(self).password,
            final(self).key == old(self).key,
            final(self).salt == old(self).salt,
            final(self).nonce == nonce,
            result_bytes(r) == sealed_with(old(self).key@, old(self).salt@, nonce@, old(contents)@),
            r is Ok ==> xchacha_opened(
                old(self).key@,
                nonce@,
                xchacha_sealed(old(self).key@, nonce@, old(contents)@),
            ) == Some(old(contents)@),
            r matches Ok(out) ==> out@.len() == 40 + old(contents)@.len() + 16,
    {
        self.nonce = nonce;
        if contents.len() as u64 >= MAX_SEALED_LEN {
            return Err(ArchiveError::EncryptFailed);
        }
        let ciphertext = xchacha_seal(&self.key, &self.nonce, contents.as_slice());
        let mut output: Vec<u8> = Vec::new();
        append_bytes(&mut output, self.salt.as_slice());
        append_bytes(&mut output, self.nonce.as_slice());
        append_bytes(&mut output, ciphertext.as_slice());
        Ok(output)
    }

    /// Draws a fresh random nonce and seals `contents` under the key held
    /// and that nonce, as [`Encryption::encrypt_with_nonce`] does.
    #[must_use]
    pub fn encrypt(&mut self, contents: &mut Vec<u8>) -> (r: Result<Vec<u8>, ArchiveError>)
        ensures
            final(contents)@ == old(contents)@,
            final(self).password == old(self).password,
            final(self).key == old(self).key,
            final(self).salt == old(self).salt,
            r == Err::<Vec<u8>, ArchiveError>(ArchiveError::RandomUnavailable) && final(self).nonce
                == old(self).nonce || result_bytes(r) == sealed_with(
                old(self).key@,
                old(self).salt@,
                final(self).nonce@,
                old(contents)@,
            ),
            r is Ok ==> xchacha_opened(
                old(self).key@,
                final(self).nonce@,
                xchacha_sealed(old(self).key@, final(self).nonce@, old(contents)@),
            ) == Some(old(contents)@),
            old(contents)@.len() >= MAX_SEALED_LEN ==> r is Err,
            r matches Ok(out) ==> out@.len() == 40 + old(contents)@.len() + 16,
    {
        match os_random::<24>() {
            Some(nonce) => self.encrypt_with_nonce(contents, nonce),
            None => Err(ArchiveError::RandomUnavailable),
        }
    }

    /// Overwrites the password, key, nonce and salt with zeros and empties
    /// the password.
    pub fn wipe(&mut self)
        ensures
            final(self).password@.len() == 0,
            final(self).key@ == Seq::new(32, |i: int| 0u8),
            final(self).nonce@ == Seq::new(24, |i: int| 0u8),
            final(self).salt@ == Seq::new(16, |i: int| 0u8),
        opens_invariants none
        no_unwind
    {
        zeroize_vec(&mut self.password);
        zeroize_array(&mut self.key);
        zeroize_array(&mut self.nonce);
        zeroize_array(&mut self.salt);
    }
}

/// What sealing `contents` under `key`, `salt` and `nonce` gives: the salt,
/// the nonce, then the ciphertext with its tag; an error where the contents
/// are too long to seal.
pub open spec fn sealed_with(key: Seq<u8>, salt: Seq<u8>, nonce: Seq<u8>, contents: Seq<u8>) -> Result<
    Seq<u8>,
    ArchiveError,
> {
    if contents.len() >= MAX_SEALED_LEN {
        Err(ArchiveError::EncryptFailed)
    } else {
        Ok(salt + nonce + xchacha_sealed(key, nonce, contents))
    }
}

/// Why sealing `contents` compressed at `level` fails, whatever the salt
/// and nonce: zstd reports an error, or the compressed form is too long.
pub open spec fn seal_error(contents: Seq<u8>, level: i32) -> Option<ArchiveError> {
    match zstd_compressed(contents, level) {
        None => Some(ArchiveError::CompressFailed),
        Some(compressed) => if compressed.len() >= MAX_SEALED_LEN {
            Some(ArchiveError::EncryptFailed)
        } else {
            None
        },
    }
}

/// The archive file that sealing `contents`, compressed at `level`, under
/// `password` with `salt` and `nonce` gives: the salt, the nonce, then the
/// compressed contents sealed under the key Argon2 derives from the
/// password and the salt.
pub open spec fn sealed_archive(
    password: Seq<u8>,
    contents: Seq<u8>,
    level: i32,
    salt: Seq<u8>,
    nonce: Seq<u8>,
) -> Result<Seq<u8>, ArchiveError> {
    match seal_error(contents, level) {
        Some(e) => Err(e),
        None => Ok(
            salt + nonce + xchacha_sealed(
                argon2_key(password, salt),
                nonce,
                zstd_compressed(contents, level)->Some_0,
            ),
        ),
    }
}

/// `out` is the archive file that sealing `contents`, compressed at
/// `level`, under `password` gives for the salt and nonce it starts with.
pub open spec fn is_sealed_archive(password: Seq<u8>, contents: Seq<u8>, level: i32, out: Seq<u8>) -> bool {
    &&& out.len() >= 40
    &&& sealed_archive(password, contents, level, out.subrange(0, 16), out.subrange(16, 40))
        == Ok::<Seq<u8>, ArchiveError>(out)
}

/// With any salt and nonce, sealing fails only for the reasons that
/// compressing and sealing the contents give, never for want of randomness:
/// where zstd compresses the contents to fewer than `MAX_SEALED_LEN` bytes,
/// sealing gives the salt, the nonce, then the sealed compressed contents.
pub proof fn lemma_sealing_fails_only_by_contents(
    password: Seq<u8>,
    contents: Seq<u8>,
    level: i32,
    salt: Seq<u8>,
    nonce: Seq<u8>,
)
    ensures
        sealed_archive(password, contents, level, salt, nonce) != Err::<Seq<u8>, ArchiveError>(
            ArchiveError::RandomUnavailable,
        ),
        zstd_compressed(contents, level) is Some && zstd_compressed(contents, level)->Some_0.len()
            < MAX_SEALED_LEN ==> sealed_archive(password, contents, level, salt, nonce) == Ok::<
            Seq<u8>,
            ArchiveError,
        >(
            salt + nonce + xchacha_sealed(
                argon2_key(password, salt),
                nonce,
                zstd_compressed(contents, level)->Some_0,
            ),
        ),
        zstd_compressed(contents, level) is None ==> sealed_archive(
            password,
            contents,
            level,
            salt,
            nonce,
        ) == Err::<Seq<u8>, ArchiveError>(ArchiveError::CompressFailed),
{
}

/// Two archive files sealed from the same contents, level and password
/// with the same salt and nonce are the same.
pub proof fn lemma_sealing_fixed_by_draws(
    password: Seq<u8>,
    contents: Seq<u8>,
    level: i32,
    a: Seq<u8>,
    b: Seq<u8>,
)
    requires
        is_sealed_archive(password, contents, level, a),
        is_sealed_archive(password, contents, level, b),
        a.subrange(0, 40) == b.subrange(0, 40),
    ensures
        a == b,
{
    assert(a.subrange(0, 16) =~= a.subrange(0, 40).subrange(0, 16));
    assert(b.subrange(0, 16) =~= b.subrange(0, 40).subrange(0, 16));
    assert(a.subrange(16, 40) =~= a.subrange(0, 40).subrange(16, 40));
    assert(b.subrange(16, 40) =~= b.subrange(0, 40).subrange(16, 40));
}

/// Compresses `contents` at `level` and seals it under a key derived from
/// `password` and `salt`, with `nonce`. Decrypting the result with the same
/// password gives `contents` back.
pub fn seal_archive(
    contents: &[u8],
    password: &[u8],
    level: i32,
    salt: [u8; 16],
    nonce: [u8; 24],
) -> (r: Result<Vec<u8>, ArchiveError>)
    requires
        MIN <= level <= MAX,
        password@.len() <= MAX_PASSWORD_LEN,
    ensures
        result_bytes(r) == sealed_archive(password@, contents@, level, salt@, nonce@),
        r matches Ok(out) ==> decrypted_archive(password@, out@) == Ok::<Seq<u8>, ArchiveError>(
            contents@,
        ),
        r matches Ok(out) ==> out@.len() == 40 + zstd_compressed(contents@, level)->Some_0.len()
            + 16,
{
    let mut encryption = Encryption {
        password: slice_to_vec(password),
        key: [0u8; 32],
        nonce: [0u8; 24],
        salt,
    };
    encryption.recreate_key_from_exist_salt();
    let ghost key = encryption.key@;
    let data = slice_to_vec(contents);
    let mut compressed = match compress(&data, level) {
        Some(compressed) => compressed,
        None => return Err(ArchiveError::CompressFailed),
    };
    let ghost c = compressed@;
    let out = encryption.encrypt_with_nonce(&mut compressed, nonce)?;
    proof {
        assert(out@.subrange(0, 16) =~= salt@);
        assert(out@.subrange(16, 40) =~= nonce@);
        assert(out@.subrange(40, out@.len() as int) =~= xchacha_sealed(key, nonce@, c));
    }
    Ok(out)
}

/// Compresses `contents` at `level` and seals it under a key derived from
/// `password` with a fresh random salt and nonce, as [`seal_archive`] does
/// with them. Decrypting the result with the same password gives `contents`
/// back.
pub fn encrypt_and_compress_with_password(
    contents: &[u8],
    password: &[u8],
    compression_level: i32,
) -> (r: Result<Vec<u8>, ArchiveError>)
    requires
        MIN <= compression_level <= MAX,
        password@.len() <= MAX_PASSWORD_LEN,
    ensures
        r matches Ok(out) ==> {
            &&& is_sealed_archive(password@, contents@, compression_level, out@)
            &&& decrypted_archive(password@, out@) == Ok::<Seq<u8>, ArchiveError>(contents@)
            &&& out@.len() == 40 + zstd_compressed(contents@, compression_level)->Some_0.len() + 16
        },
        r matches Err(e) ==> e == ArchiveError::RandomUnavailable || seal_error(
            contents@,
            compression_level,
        ) == Some(e),
        seal_error(contents@, compression_level) is Some ==> r is Err,
{
    let salt = match os_random::<16>() {
        Some(salt) => salt,
        None => return Err(ArchiveError::RandomUnavailable),
    };
    let nonce = match os_random::<24>() {
        Some(nonce) => nonce,
        None => return Err(ArchiveError::RandomUnavailable),
    };
    let r = seal_archive(contents, password, compression_level, salt, nonce);
    proof {
        if r is Ok {
            let out = r->Ok_0@;
            assert(out.subrange(0, 16) =~= salt@);
            assert(out.subrange(16, 40) =~= nonce@);
        }
    }
    r
}

/// Compresses `contents` at `level` and seals it under a key derived from
/// `password`, as [`encrypt_and_compress_with_password`] does.
pub fn encrypt_and_compress_flow(contents: &mut Vec<u8>, password: &[u8], level: i32) -> (r: Result<
    Vec<u8>,
    ArchiveError,
>)
    requires
        MIN <= level <= MAX,
        password@.len() <= MAX_PASSWORD_LEN,
    ensures
        final(contents)@ == old(contents)@,
        r matches Ok(out) ==> {
            &&& is_sealed_archive(password@, old(contents)@, level, out@)
            &&& decrypted_archive(password@, out@) == Ok::<Seq<u8>, ArchiveError>(old(contents)@)
            &&& out@.len() == 40 + zstd_compressed(old(contents)@, level)->Some_0.len() + 16
        },
        r matches Err(e) ==> e == ArchiveError::RandomUnavailable || seal_error(old(contents)@, level)
            == Some(e),
        seal_error(old(contents)@, level) is Some ==> r is Err,
{
    encrypt_and_compress_with_password(contents.as_slice(), password, level)
}

impl Drop for Encryption {
    /// Wipes the secrets when the value goes away.
    fn drop(&mut self)
        opens_invariants none
        no_unwind
    {
        self.wipe();
    }
}

} // verus!
