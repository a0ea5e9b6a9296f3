[package]
name = "review_tool"
version = "0.1.0"
edition = "2021"
publish = false

[dependencies]
tree-sitter = "=0.24.7"
tree-sitter-rust = "=0.23.3"
rusqlite = { version = "0.32", features = ["bundled"] }
crossterm = "0.28"
ratatui = "0.29"
