[package]
name = "pliantdb"
version = "0.1.0"
edition = "2021"
publish = false

[dependencies]
serde = { version = "1", features = ["derive"] }
serde_cbor = "0.11"
async-trait = "0.1"
futures = "0.3"
thiserror = "1"
zeroize = { version = "1", features = ["zeroize_derive"] }
uuid = "1"
