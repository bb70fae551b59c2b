[package]
name = "zklink_codec"
version = "0.1.0"
edition = "2021"
publish = false

[dependencies]
parity-crypto = "*"
serde = { version = "*", features = ["derive"] }
num = "*"

[dev-dependencies]
hex = "*"
