[package]
name = "mini_lsm"
version = "0.1.0"
edition = "2021"
publish = false

[dependencies]
crc32c = "0.6"
thiserror = "1"
tinyvec = { version = "1", features = ["alloc"] }

[dev-dependencies]
rand = "0.8"
