[package]
name = "rocksdb_viewer"
version = "0.1.0"
edition = "2021"
publish = false

[dependencies]
serde_json = "1"
rocksdb = "*"
crossterm = "*"
ratatui = "*"
clap = { version = "4", features = ["derive"] }
anyhow = "1"
