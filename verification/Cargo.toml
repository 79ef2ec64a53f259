[package]
name = "solana-shred-tx-benchmark"
version = "0.1.0"
edition = "2021"
publish = false

[dependencies]
bincode = "1"
prost = "*"
solana-hash = { version = "*", features = ["serde"] }
solana-transaction = { version = "*", features = ["serde"] }
tokio = { version = "1", features = ["macros", "rt-multi-thread", "signal", "sync", "time"] }
tonic = "*"
tonic-prost = "*"
