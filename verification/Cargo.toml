[package]
name = "bathtub_db"
version = "0.1.0"
edition = "2021"
publish = false

[dependencies]
blake3 = "1"
sodiumoxide = "0.2"
imara-diff = "0.1"
zstd = "0.13"
getrandom = "0.3"
tempfile = "3"
clap = { version = "4", features = ["derive"] }
ansi_term = "0.12"
libc = "0.2"

[dev-dependencies]
seahash = "4"
