[package]
name = "atomcode_core"
version = "0.1.0"
edition = "2021"
publish = false

[dependencies]
anyhow = "1"
async-trait = "0.1"
bincode = "=1.3.3"
dirs = "5"
futures = "0.3"
ignore = "0.4"
reqwest = { version = "0.12", default-features = false, features = ["json"] }
serde = { version = "=1.0.229", features = ["derive", "rc"] }
serde_json = "=1.0.154"
tokio = { version = "1", features = ["full"] }
tokio-util = "0.7"
toml = "0.8"
tracing = "0.1"
tree-sitter = "=0.25.10"
url = "=2.5.8"
which = "6"

[dev-dependencies]
tree-sitter-rust = "0.24"
