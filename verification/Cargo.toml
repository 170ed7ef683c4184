[package]
name = "asset_pipeline"
version = "0.1.0"
edition = "2021"
publish = false

[dependencies]
crc32fast = "*"
serde = { version = "*", features = ["derive"] }
toml = "*"
ulid = "*"
