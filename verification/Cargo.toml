[package]
name = "gofi"
version = "0.1.0"
edition = "2021"
publish = false

[dependencies]
postgres = "*"
serde = { version = "*", features = ["derive"] }
serde_yaml = "*"
once_cell = "*"
chrono = "*"
hex = "*"
sha3 = "*"
secp256k1 = "*"
