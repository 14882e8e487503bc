[package]
name = "torrent_leech"
version = "0.1.0"
edition = "2021"
publish = false

[dependencies]
anyhow = "1"
bytebuffer = "0.2"
rand = "0.8"
rust-crypto = "0.2"
serde = { version = "1", features = ["derive"] }
serde_bencode = "0.2"
serde_bytes = "0.11"
serde_derive = "1"
tokio = { version = "1", features = ["rt-multi-thread", "macros", "sync"] }
url = "2"
