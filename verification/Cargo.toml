[package]
name = "kre8ntemjs_core"
version = "0.1.0"
edition = "2021"
publish = false

[dependencies]
anyhow = "1"
clap = { version = "4", features = ["derive"] }
humantime = "2"
rand = "0.8"
regex = "1"
serde = { version = "1", features = ["derive"] }
sha1 = "0.10"
tempfile = "3"
thiserror = "1"
tree-sitter = "0.20"
tree-sitter-javascript = "0.20"
walkdir = "2"
