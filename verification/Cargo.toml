[package]
name = "rschain"
version = "0.1.0"
edition = "2021"
publish = false

[dependencies]
anyhow = "1"
hex = "0.4"
hex_fmt = "0.3"
openssl = "0.10"
rand = "0.8"
serde = { version = "1", features = ["derive"] }
serde_json = "1"
sha2 = "0.10"
substring = "1"
thiserror = "1"
