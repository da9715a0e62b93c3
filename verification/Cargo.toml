[package]
name = "rust-crypto-orderbook"
version = "0.1.0"
edition = "2021"
publish = false

[dependencies]
crc32fast = "=1.5.4"
anyhow = "=1.0.104"
clap = { version = "=4.6.7", features = ["derive", "env"] }
futures-util = "=0.3.34"
hdrhistogram = "=7.6.0"
rand = "=0.10.3"
serde = { version = "=1.0.229", features = ["derive"] }
serde_json = { version = "=1.0.154", features = ["raw_value"] }
thiserror = "=2.0.21"
tokio = { version = "=1.54.1", features = ["full"] }
tokio-stream = { version = "=0.1.19", features = ["sync"] }
tokio-tungstenite = { version = "=0.30.0", features = ["connect", "rustls-tls-webpki-roots"] }
tonic = "=0.14.9"
tonic-prost = "=0.14.9"
tonic-reflection = "=0.14.9"
prost = "=0.14.4"
prost-types = "=0.14.4"
tracing = "=0.1.44"
tracing-subscriber = { version = "=0.3.23", features = ["env-filter"] }
