[package]
name = "sysml"
version = "0.2.0-alpha.1"
edition = "2021"
publish = false

[dependencies]
serde = { version = "1", features = ["derive"] }
serde_json = "1"
toml = "0.8"
tree-sitter = "0.25"
tree-sitter-sysml = "0.1"
