[package]
name = "rust_file"
version = "0.1.0"
edition = "2021"
publish = false

[dependencies]
argon2 = "0.5"
chacha20poly1305 = "0.10"
rand = "*"
zeroize = "1"
zstd = "0.13"
tokio = { version = "1", features = ["full"] }
anyhow = "1"
oauth2 = { version = "5", default-features = false }
webbrowser = "1"
