[package]
name = "vybim"
version = "0.1.0"
edition = "2021"
publish = false

[dependencies]
lsp-types = "=0.97.0"
portable-pty = "=0.9.0"
ratatui = "0.30"
ropey = "=1.6.1"
serde = { version = "=1.0.229", features = ["derive"] }
serde_json = "=1.0.154"
similar = "=2.7.0"
tree-sitter = "=0.27.1"
tree-sitter-c = "=0.24.2"
tree-sitter-cpp = "=0.23.4"
tree-sitter-highlight = "=0.27.1"
tree-sitter-python = "=0.25.0"
tree-sitter-rust = "=0.24.2"
vt100 = "0.16"
walkdir = "=2.5.0"
