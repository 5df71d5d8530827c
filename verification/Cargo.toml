[package]
name = "ledger_sync"
version = "0.1.0"
edition = "2021"
publish = false

[dependencies]
actix = "0.13"
bincode = "1"
failure = "0.1"
futures = "0.3"
log = "0.4"
serde = { version = "1", features = ["derive"] }
