[package]
name = "alvarium_demo"
version = "0.1.0"
edition = "2021"
publish = false

[dependencies]
iota-crypto = { version = "*", features = ["ed25519", "sha", "random"] }
base64 = "*"
gethostname = "*"
rand = "*"
chrono = { version = "*", default-features = false, features = ["clock"] }
