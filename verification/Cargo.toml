[package]
name = "heapstore"
version = "0.1.0"
edition = "2021"
publish = false

[dependencies]
serde = { version = "1", features = ["derive"] }
serde_json = "1"
serde_cbor = "0.11"
csv = "1"

[dev-dependencies]
rand = "0.8"
