[package]
name = "ciruela_sync"
version = "0.1.0"
edition = "2021"
publish = false

[dependencies]
blake2 = "*"
serde = { version = "*", features = ["derive"] }
serde_cbor = "*"
