[package]
name = "toki_sama"
version = "0.1.0"
edition = "2021"
publish = false

[dependencies]
radix_trie = "0.2"
smallvec = "1"
unicase = "2"
serde = { version = "1", features = ["derive"] }
serde_json = "1"
