[package]
name = "bazel_lsp"
version = "0.1.0"
edition = "2021"
publish = false

[dependencies]
anyhow = "*"
serde_json = "*"
tokio = { version = "*", features = ["full"] }
tower-lsp = "*"
tree-sitter = "*"
tree-sitter-starlark = "*"
url = "*"
