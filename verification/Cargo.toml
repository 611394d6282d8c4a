[package]
name = "java_nav"
version = "0.1.0"
edition = "2021"
publish = false

[dependencies]
dashmap = "5"
tree-sitter = "0.20"
tree-sitter-java = "0.20"
tree-sitter-traversal = "0.1"
tower-lsp = "0.20"
tokio = { version = "1", features = ["io-std", "macros", "rt-multi-thread"] }
log = "0.4"
env_logger = "0.10"
