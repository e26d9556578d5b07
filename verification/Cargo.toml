[package]
name = "kademlia_rs"
version = "0.1.0"
edition = "2021"
publish = false

[dependencies]
rand = "0.8"
sha1 = "0.10"
chrono = { version = "0.4", default-features = false, features = ["clock", "std"] }
serde = { version = "1", features = ["derive"] }
serde_cbor = "0.11"
clap = { version = "4", features = ["derive"] }
