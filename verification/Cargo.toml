[package]
name = "powerio_tx"
version = "0.1.0"
edition = "2021"
publish = false

[dependencies]
quick-xml = "=0.38.4"
uuid = { version = "=1.29.0", features = ["v5"] }
serde = { version = "1", features = ["derive"] }
serde_json = "1"
