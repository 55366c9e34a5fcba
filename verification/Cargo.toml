[package]
name = "a3s_vec"
version = "0.1.0"
edition = "2021"
publish = false

[dependencies]
im = "15"
roaring = "0.10"
serde = { version = "1", features = ["derive"] }
serde_json = "1"
crc32fast = "1"
