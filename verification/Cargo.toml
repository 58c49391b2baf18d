[package]
name = "linkmap"
version = "0.1.0"
edition = "2021"
publish = false

[dependencies]
sha2 = "=0.10.9"
anyhow = "=1.0.104"
clap = { version = "=4.6.7", features = ["derive"] }
rusqlite = { version = "=0.32.1", features = ["bundled"] }
serde = { version = "=1.0.229", features = ["derive"] }
serde_json = "=1.0.154"
open = "=5.4.5"
walkdir = "=2.5.0"
base64 = "=0.22.1"
tree-sitter = "0.25"
streaming-iterator = "0.1"
tree-sitter-javascript = "0.23"
tree-sitter-typescript = "0.23"
tree-sitter-python = "0.23"
tree-sitter-go = "0.23"
tree-sitter-rust = "0.23"
tree-sitter-php = "0.23"
tree-sitter-java = "0.23"
