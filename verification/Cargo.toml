[package]
name = "editor_core"
version = "0.1.0"
edition = "2021"
publish = false

[dependencies]
# ropey is built without its default line-break features, so the only line
# break is LF: the line contracts in src/rope_store.rs are exact only under
# that configuration.
ropey = { version = "=1.6.1", default-features = false }
regex = "=1.13.1"
similar = "=2.7.0"
tree-sitter = "=0.25.10"
tree-sitter-md = "=0.5.3"
tree-sitter-traversal2 = "=0.2.1"
crossterm = "=0.29.0"
lsp-types = "=0.97.0"
anyhow = "=1.0.104"

[dev-dependencies]
tree-sitter-rust = "=0.24.2"
tree-sitter-yaml = "=0.7.2"
