[package]
name = "pg_money"
version = "0.3.0"
edition = "2021"
publish = false

[dependencies]
rust_decimal = "=1.43.0"
rusty-money = { version = "=0.5.1", features = ["crypto", "fast", "serde"] }
serde = { version = "=1.0.229", features = ["derive"] }
serde_cbor = "=0.11.2"
serde_json = "=1.0.154"
