[package]
name = "pool_miner"
version = "0.1.0"
edition = "2021"
publish = false

[dependencies]
base64 = "=0.22.1"
clap = { version = "4", features = ["derive"] }
core_affinity = "0.8"
drillx_2 = "=1.1.0"
futures-util = "0.3"
reqwest = { version = "0.12", default-features = false }
solana-sdk = "=5.0.0"
tokio = { version = "1", features = ["full"] }
tokio-tungstenite = "=0.23.1"
url = "=2.5.8"
