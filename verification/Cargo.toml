[package]
name = "astral"
version = "0.1.0"
edition = "2021"
publish = false

[dependencies]
anyhow = "1"
arrow-array = { version = "57.3", default-features = false }
arrow-schema = { version = "57.3", default-features = false }
fastembed = { version = "5.17", default-features = false, features = ["hf-hub", "ort-load-dynamic"] }
futures = "0.3"
serde = { version = "1", features = ["derive"] }
serde_json = "1"
thiserror = "2"
tokio = { version = "1", features = ["macros", "rt-multi-thread"] }
tree-sitter = "0.26"
tree-sitter-solidity = "1.2"
walkdir = "2"
