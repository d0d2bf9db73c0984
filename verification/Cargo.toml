[package]
name = "dense"
version = "0.1.0"
edition = "2021"
publish = false

[dependencies]
blake2 = "0.10"
crypto-bigint = { version = "0.6", features = ["alloc", "rand"] }
k256 = { version = "0.13", features = ["ecdh"] }
serde_json = "1"
