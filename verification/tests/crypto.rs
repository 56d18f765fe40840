use rust_file::compression::{compress, decompress_bytes, is_compression_level, MAX, MIN};
use rust_file::decrypt::{
    decrypt_and_decomp, decrypt_and_decomp_bytes, try_decrypt_and_decomp_bytes,
};
use rust_file::encryption::{
    encrypt_and_compress_flow, encrypt_and_compress_with_password, seal_archive, Encryption,
};
use rust_file::error::ArchiveError;
use zstd::stream::encode_all;

fn blank(password: &[u8]) -> Encryption {
    Encryption {
        password: password.to_vec(),
        key: [0u8; 32],
        nonce: [0u8; 24],
        salt: [0u8; 16],
    }
}

#[test]
fn compress_uncompress() {
    let input = String::from("helo world? ?");

    let compressed = encode_all(input.as_bytes(), 3).expect("zstd compression failed");
    let uncompress = decompress_bytes(&compressed).expect("zstd decompression failed");
    let string = String::from_utf8(uncompress).unwrap();

    assert_eq!(input, string);
}

#[test]
fn compression_encryption_flow_round_trips() {
    let input = b"hello encrypted compressed world".to_vec();
    let password = b"test-password";

    let encrypted = encrypt_and_compress_with_password(&input, password, 3).unwrap();
    let decrypted = decrypt_and_decomp_bytes(&encrypted, password);

    assert_eq!(input, decrypted);
}

#[test]
fn compression_levels() {
    assert_eq!((MIN, MAX), (-7, 22));
    assert!(is_compression_level(-7));
    assert!(is_compression_level(0));
    assert!(is_compression_level(22));
    assert!(!is_compression_level(-8));
    assert!(!is_compression_level(23));
}

#[test]
fn compress_round_trips_and_shrinks() {
    let data = vec![7u8; 4096];
    let compressed = compress(&data, 5).unwrap();
    assert!(compressed.len() < data.len());
    assert_ne!(compressed, data);
    assert_eq!(decompress_bytes(&compressed), Some(data));
}

#[test]
fn decompress_garbage() {
    assert_eq!(decompress_bytes(b"not zstd at all"), None);
}

#[test]
fn set_password_trims_line_end() {
    let mut e = blank(b"");
    e.set_password("secret\r\n");
    assert_eq!(e.password, b"secret".to_vec());
    e.set_password("a b\n\r\n");
    assert_eq!(e.password, b"a b".to_vec());
    e.set_password("\n");
    assert_eq!(e.password, Vec::<u8>::new());
    e.set_password(" x \t");
    assert_eq!(e.password, b" x \t".to_vec());
}

#[test]
fn derive_key_is_not_the_password() {
    let mut e = blank(b"0123456789abcdef0123456789abcdef");
    e.derive_key().unwrap();
    assert_ne!(e.key.to_vec(), e.password);
    assert_ne!(e.key, [0u8; 32]);
    let key = e.key;
    e.recreate_key_from_exist_salt();
    assert_eq!(e.key, key);
}

#[test]
fn encrypt_layout() {
    let mut e = blank(b"pw");
    e.derive_key().unwrap();
    let mut contents = b"plain text".to_vec();
    let out = e.encrypt(&mut contents).unwrap();
    assert_eq!(contents, b"plain text".to_vec());
    assert_eq!(out.len(), 16 + 24 + contents.len() + 16);
    assert_eq!(&out[..16], &e.salt);
    assert_eq!(&out[16..40], &e.nonce);
    assert_ne!(&out[40..50], b"plain text");
    assert_eq!(e.decrypt_n_compress_to_dst(&out[40..]), Err(ArchiveError::DecompressFailed));
}

#[test]
fn sealed_archive_round_trip() {
    let input = vec![1u8, 2, 3, 4, 5, 6, 7, 8, 9, 10];
    let out = encrypt_and_compress_with_password(&input, b"pw", -7).unwrap();
    assert_eq!(decrypt_and_decomp(&out, b"pw"), Ok(input.clone()));
    assert_eq!(try_decrypt_and_decomp_bytes(&out, b"pw"), Some(input));
}

#[test]
fn flow_round_trip() {
    let mut input = b"abc".repeat(100);
    let out = encrypt_and_compress_flow(&mut input, b"pass", 22).unwrap();
    assert_eq!(input, b"abc".repeat(100));
    assert_eq!(decrypt_and_decomp(&out, b"pass"), Ok(input));
}

#[test]
fn wrong_password_fails() {
    let out = encrypt_and_compress_with_password(b"data", b"right", 3).unwrap();
    assert_eq!(decrypt_and_decomp(&out, b"wrong"), Err(ArchiveError::DecryptFailed));
    assert_eq!(try_decrypt_and_decomp_bytes(&out, b"wrong"), None);
}

#[test]
fn tampered_archive_fails() {
    let mut out = encrypt_and_compress_with_password(b"data", b"pw", 3).unwrap();
    let last = out.len() - 1;
    out[last] ^= 1;
    assert_eq!(decrypt_and_decomp(&out, b"pw"), Err(ArchiveError::DecryptFailed));
}

#[test]
fn short_file_fails() {
    assert_eq!(decrypt_and_decomp(&[0u8; 39], b"pw"), Err(ArchiveError::UnexpectedEof));
    let mut e = blank(b"pw");
    assert_eq!(e.get_salt_n_nounce(&[0u8; 39]), Err(ArchiveError::UnexpectedEof));
}

#[test]
fn salt_and_nonce_are_read_from_the_start() {
    let mut e = blank(b"pw");
    let file: Vec<u8> = (0u8..45).collect();
    let rest = e.get_salt_n_nounce(&file).unwrap();
    assert_eq!(e.salt.to_vec(), (0u8..16).collect::<Vec<u8>>());
    assert_eq!(e.nonce.to_vec(), (16u8..40).collect::<Vec<u8>>());
    assert_eq!(rest, vec![40, 41, 42, 43, 44]);
}

#[test]
fn wipe_clears_secrets() {
    let mut e = blank(b"secret");
    e.key = [7u8; 32];
    e.nonce = [8u8; 24];
    e.salt = [9u8; 16];
    e.wipe();
    assert!(e.password.is_empty());
    assert_eq!(e.key, [0u8; 32]);
    assert_eq!(e.nonce, [0u8; 24]);
    assert_eq!(e.salt, [0u8; 16]);
}

#[test]
fn seal_archive_is_fixed_by_salt_and_nonce() {
    let salt = [3u8; 16];
    let nonce = [5u8; 24];
    let a = seal_archive(b"some contents", b"pw", 3, salt, nonce).unwrap();
    let b = seal_archive(b"some contents", b"pw", 3, salt, nonce).unwrap();
    assert_eq!(a, b);
    assert_eq!(&a[..16], &salt);
    assert_eq!(&a[16..40], &nonce);
    let compressed = encode_all(&b"some contents"[..], 3).unwrap();
    assert_eq!(a.len(), 40 + compressed.len() + 16);
    assert_eq!(decrypt_and_decomp(&a, b"pw"), Ok(b"some contents".to_vec()));
    let c = seal_archive(b"some contents", b"pw", 3, [4u8; 16], nonce).unwrap();
    assert_ne!(a[40..], c[40..]);
}

#[test]
fn encrypt_with_nonce_keeps_the_nonce() {
    let mut e = blank(b"pw");
    e.salt = [1u8; 16];
    e.recreate_key_from_exist_salt();
    let mut contents = b"xyz".to_vec();
    let out = e.encrypt_with_nonce(&mut contents, [2u8; 24]).unwrap();
    assert_eq!(e.nonce, [2u8; 24]);
    assert_eq!(&out[..16], &[1u8; 16]);
    assert_eq!(&out[16..40], &[2u8; 24]);
    assert_eq!(out.len(), 40 + 3 + 16);
    let again = e.encrypt_with_nonce(&mut contents, [2u8; 24]).unwrap();
    assert_eq!(out, again);
}

#[test]
fn short_file_fails_for_any_password() {
    let long = vec![b'p'; 1 << 16];
    assert_eq!(decrypt_and_decomp(&[1u8; 10], &long), Err(ArchiveError::UnexpectedEof));
}
