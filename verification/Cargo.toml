[package]
name = "alternator"
version = "0.1.0"
edition = "2021"
publish = false

[dependencies]
serde = { version = "1", features = ["derive"] }
serde_json = "1"
spdcp = "*"
tree-sitter = "*"
tree-sitter-sourcepawn = "*"
treexml = "*"
git2 = { version = "*", default-features = false }
toml = "*"
thiserror = "*"
anyhow = "1"
clap = { version = "*", features = ["derive"] }
