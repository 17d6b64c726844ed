[package]
name = "jokolay"
version = "0.1.0"
edition = "2021"
publish = false

[dependencies]
petgraph = "=0.8.3"
bimap = "=0.6.3"
uuid = { version = "=1.29.0", features = ["v4", "serde"] }
base64 = "=0.23.1"
glam = "=0.34.2"
ordered_hash_map = "=0.6.1"
serde = { version = "=1.0.229", features = ["derive"] }
serde_json = "1"
bincode = "=1.3.3"
tokio = { version = "=1.54.1", default-features = false, features = ["sync"] }
