[package]
name = "secure_transfer"
version = "0.1.0"
edition = "2021"
publish = false

[dependencies]
aes = "0.8"
anyhow = "1"
crossbeam-channel = "0.5"
crossbeam-queue = "0.3"
ctr = "0.9"
rand = "0.8"
rsa = "0.9"
sha2 = "0.10"
socket2 = "0.5"
xxhash-rust = { version = "0.8", features = ["xxh64"] }
