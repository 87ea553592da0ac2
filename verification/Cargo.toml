[package]
name = "provenance_ledger"
version = "0.1.0"
edition = "2021"
publish = false

[dependencies]
ring = "0.17"
sled = "0.34"
chrono = { version = "0.4", features = ["serde"] }
serde = { version = "1", features = ["derive"] }
serde_json = "1"
thiserror = "1"
uuid = { version = "1", features = ["v4", "serde"] }
tokio = { version = "1", features = ["rt-multi-thread", "macros", "net", "sync"] }
axum = "0.6"
async-trait = "0.1"
