[package]
name = "planetscale-driver"
version = "0.1.0"
edition = "2021"
publish = false

[dependencies]
base64 = "0.21"
anyhow = "1"
async-mutex = "1"
reqwest = { version = "0.11", default-features = false, features = ["json", "rustls-tls"] }
serde = { version = "1", features = ["derive"] }
serde_json = "1"
