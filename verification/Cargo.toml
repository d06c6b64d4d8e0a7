[package]
name = "trident"
version = "0.1.0"
edition = "2021"
publish = false

[dependencies]
crc32fast = "1"
lz4_flex = "0.11"
zstd = "0.13"
serde = { version = "1", features = ["derive"] }
serde_json = "1"
toml = "0.8"
