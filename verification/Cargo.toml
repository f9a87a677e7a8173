[package]
name = "miden_lsp"
version = "0.1.1"
edition = "2021"
publish = false

[dependencies]
miden-assembly-syntax = "0.22"
miden-core = "0.22"
miden-mast-package = "0.22"
miden-package-registry = "0.22"
miden-project = "0.22"
serde = { version = "1", features = ["derive"] }
serde_json = "1"
tokio = { version = "1", features = ["io-std", "macros", "rt-multi-thread", "sync"] }
tower-lsp = "0.20"
tree-sitter = "0.26"
tree-sitter-masm = "0.1"
