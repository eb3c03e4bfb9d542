[package]
name = "bm25_index"
version = "0.1.0"
edition = "2021"
publish = false

[dependencies]
eyre = "0.6"
mimalloc = "0.1"
rmp-serde = "1"
rocket = { version = "0.5", features = ["json"] }
serde = { version = "1", features = ["derive"] }
serde_json = "1"
zip = { version = "*", default-features = false }
