[package]
name = "laurus"
version = "0.1.0"
edition = "2021"
publish = false

[dependencies]
ahash = "0.8"
base64 = "0.22"
chrono = "0.4"
crc32fast = "1"
log = "0.4"
lru = "*"
lz4_flex = "*"
parking_lot = "0.12"
regex = "1"
rkyv = "*"
roaring = "*"
serde = { version = "1", features = ["derive"] }
serde_json = "1"
