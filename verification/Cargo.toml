[package]
name = "gateway_core"
version = "0.1.0"
edition = "2021"
publish = false

[dependencies]
aes-gcm = "=0.11.1"
anyhow = "=1.0.104"
async-trait = "=0.1.92"
base64 = "=0.23.1"
blake3 = "=1.8.7"
clap = { version = "=4.6.7", features = ["derive"] }
humantime = "=2.4.0"
rand = "=0.10.3"
regex = "=1.13.1"
serde = { version = "=1.0.229", features = ["derive"] }
serde_json = "=1.0.151"
tar = "=0.4.46"
thiserror = "=2.0.21"
tokio = { version = "=1.53.2", features = ["sync", "rt", "macros", "io-std", "io-util"] }
toml = "=1.1.7"
uuid = { version = "=1.27.0", features = ["v4"] }
zeroize = "=1.9.1"
zstd = "=0.14.0"
