[package]
name = "laya"
version = "0.1.0"
edition = "2021"
publish = false

[dependencies]
anyhow = "1"
candle-core = "0.9"
candle-nn = "0.9"
candle-transformers = "0.9"
clap = { version = "4", features = ["derive"] }
hf-hub = { version = "0.4", default-features = false, features = ["ureq", "rustls-tls"] }
indexmap = { version = "2", features = ["serde"] }
serde = { version = "1", features = ["derive"] }
serde_json = { version = "1", features = ["preserve_order", "float_roundtrip"] }
thiserror = "2"
tokenizers = { version = "0.21", default-features = false, features = ["fancy-regex"] }
ureq = "2"
