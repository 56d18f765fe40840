//! A small archive tool: files are packed into a little-endian archive
//! format, compressed with zstd and sealed with XChaCha20-Poly1305 under a
//! key derived from a password with Argon2.

pub mod compression;
pub mod debug_safety;
pub mod decrypt;
pub mod discovery;
pub mod encryption;
pub mod error;
pub mod file;
pub mod google_drive;
pub mod read_back;
pub mod round_trip;
pub mod seqs;
pub mod text;
