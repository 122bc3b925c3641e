[package]
name = "fraud_index"
version = "0.1.0"
edition = "2021"
publish = false

[dependencies]
fast-float = "0.2"
flate2 = "1"
kiddo = "5"
libc = "0.2"
memchr = "2"
memmap2 = "0.9"
mimalloc = "0.1"
serde = { version = "1", features = ["derive"] }
serde_json = "1"
