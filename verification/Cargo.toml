[package]
name = "cql_ls"
version = "0.1.0"
edition = "2021"
publish = false

[dependencies]
ropey = { version = "=1.6.1", default-features = false }
tree-sitter = "0.25"
tttx-tree-sitter-cql = "*"
tokio = { version = "=1.53.2", features = ["full"] }
tower-lsp = "=0.20.0"
