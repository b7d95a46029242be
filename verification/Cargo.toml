[package]
name = "code-path-lens"
version = "0.1.0"
edition = "2021"
publish = false

[dependencies]
tree-sitter = "*"
tree-sitter-rust = "*"
tree-sitter-typescript = "*"
tree-sitter-python = "*"
tree-sitter-go = "*"
anyhow = "1"
clap = { version = "4", features = ["derive"] }
globset = "*"
ignore = "*"
serde = { version = "1", features = ["derive"] }
serde_json = "1"
ureq = "*"

[dev-dependencies]
tempfile = "3"
