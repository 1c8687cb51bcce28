[package]
name = "gbtrace"
version = "0.1.0"
edition = "2021"
publish = false

[dependencies]
png = "0.17"
sha2 = "0.10"
serde = { version = "1", features = ["derive"] }
serde_json = "1"
toml = "0.8"
flate2 = "1"
clap = { version = "4", features = ["derive"] }
