[package]
name = "rasen_archive"
version = "0.1.0"
edition = "2021"
publish = false

[dependencies]
blake3 = "1"
chacha20poly1305 = "*"
clap = { version = "4", features = ["derive", "env"] }
getrandom = "0.3"
lz4_flex = "*"
xxhash-rust = { version = "*", features = ["xxh3"] }
