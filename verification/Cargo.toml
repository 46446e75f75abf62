[package]
name = "kvs"
version = "0.1.0"
edition = "2021"
publish = false

[dependencies]
sled = "=0.34.7"
serde = { version = "=1.0.229", features = ["derive"] }
serde_json = "=1.0.151"
ron = "=0.12.2"
bson = { version = "=3.1.0", features = ["serde"] }
bincode = "=1.3.3"
clap = { version = "=4.6.7", features = ["derive"] }
