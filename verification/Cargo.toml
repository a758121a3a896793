[package]
name = "blackhole"
version = "0.1.0"
edition = "2021"
publish = false

[dependencies]
conflaguration = { version = "=2.0.0", features = ["derive"] }
futures = "=0.3.34"
regex = "=1.13.1"
serde = { version = "=1.0.229", features = ["derive"] }
serde_json = "=1.0.154"
sha2 = "=0.10.9"
toml = "=0.8.23"
