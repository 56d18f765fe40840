# rust_file

A command-line archive tool whose core is a verified Verus library.

- `src/file.rs` packs files into the archive format (a 12-byte head, one
  48-byte little-endian record per file, then all names, paths and contents);
  `src/read_back.rs` reads it back. `src/round_trip.rs` proves that reading
  an archive gives back the files it was packed from, and that every path
  read back is relative and free of `..`.
- `src/compression.rs`, `src/encryption.rs` and `src/decrypt.rs` compress
  with zstd and seal with XChaCha20-Poly1305 under an Argon2 key; sealing
  then opening with the same password gives the contents back.
- `src/discovery.rs` builds and reads the UDP discovery messages;
  `src/debug_safety.rs` reads a process status text for a tracer.
- Archive paths are read as on Unix (Linux is the target: the tool reads
  `/proc`): only `/` separates path components, so a `\` or a drive prefix
  is an ordinary character and is not refused.
- `src/google_drive.rs` builds the Google login URL through oauth2.
- `app/` holds the command line, the file system, the terminal and the
  network.

Calls into argon2, chacha20poly1305, oauth2, rand, zeroize and zstd sit behind small
trusted wrappers whose contracts say what those crates document.
