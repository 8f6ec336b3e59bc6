[package]
name = "swexa"
version = "0.1.0"
edition = "2021"
publish = false

[dependencies]
solana-address = { version = "=2.9.0", features = ["curve25519"] }
solana-instruction = "=4.0.0"
solana-account = "=5.4.0"
petgraph = "=0.8.3"
serde = { version = "=1.0.229", features = ["derive"] }
serde_json = "=1.0.154"
anyhow = "=1.0.104"
log = "=0.4.35"
tokio = { version = "=1.54.1", features = ["rt-multi-thread", "macros", "sync", "time", "net"] }
axum = "=0.8.9"
reqwest = { version = "=0.13.5", default-features = false, features = ["json"] }
