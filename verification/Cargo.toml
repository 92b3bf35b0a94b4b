[package]
name = "fff_plus"
version = "0.1.0"
edition = "2021"
publish = false

[dependencies]
blake3 = "1"
memchr = "2"
ahash = "0.8"
neo_frizbee = "*"
serde = { version = "1", features = ["derive"] }
serde_json = "1"
bincode = "1"
toml = "0.8"
dirs = "5"
libc = "0.2"
