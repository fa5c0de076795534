[package]
name = "grpc"
version = "0.1.0"
edition = "2021"
publish = false

[dependencies]
bytes = "1"
flate2 = "1"
rand = "0.9"
serde = { version = "1", features = ["derive"] }
serde_json = "1"
url = "2"
zstd = "0.13"
