[package]
name = "spec-editor-core"
version = "0.1.0"
edition = "2021"
publish = false

[dependencies]
glob = "0.3"
regex = "1"
toml = "0.8"
serde = { version = "1", features = ["derive"] }
csv = "1"
anyhow = "1"
