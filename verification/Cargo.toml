[package]
name = "sidechain_ledger"
version = "0.1.0"
edition = "2021"
publish = false

[dependencies]
blake2 = "0.10"
digest = "0.10"
ed25519-dalek = { version = "=1.0.1", features = ["batch"] }
bs58 = { version = "0.5", features = ["check"] }
hex = "0.4"
bitcoin = "*"
serde = { version = "1", features = ["derive"] }
bincode = "1"
