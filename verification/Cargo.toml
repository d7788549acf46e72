[package]
name = "ledb"
version = "0.1.0"
edition = "2021"
publish = false

[dependencies]
lmdb-zero = "0.4"
ron = "*"
serde = { version = "1", features = ["derive"] }
supercow = "0.1"
