[package]
name = "amm_ledger"
version = "0.1.0"
edition = "2021"
publish = false

[dependencies]
serde = { version = "1", features = ["derive"] }
serde_json = "1"
borsh = { version = "1", features = ["derive"] }
hex = "0.4"
chrono = "0.4"
clap = { version = "4", features = ["derive"] }
