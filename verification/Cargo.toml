[package]
name = "mirage_analyzer"
version = "0.1.0"
edition = "2021"
publish = false

[dependencies]
petgraph = "0.6"
blake3 = "1"
serde = { version = "1", features = ["derive"] }
anyhow = "1"
rusqlite = { version = "0.31", features = ["bundled"] }
git2 = { version = "0.18", default-features = false }
chrono = "0.4"
tracing = "0.1"
tree-sitter = "0.20"
