[package]
name = "tufops"
version = "0.1.0"
edition = "2021"
publish = false

[dependencies]
tuf = "=0.3.0-beta14"
anyhow = "1"
async-trait = "0.1"
chrono = "0.4"
clap = { version = "4", features = ["derive"] }
console = "*"
dialoguer = "*"
futures-util = { version = "0.3", features = ["io"] }
google-cloud-kms-v1 = "*"
google-cloud-storage = "*"
md-5 = "0.10"
octocrab = { version = "0.44", default-features = false, features = ["default-client", "follow-redirect", "retry", "rustls", "rustls-ring", "timeout", "tracing"] }
ring = "0.17"
serde = { version = "1", features = ["derive"] }
serde_json = "1"
sha2 = "0.10"
tokio = { version = "1", features = ["full"] }
toml = "*"
url = "2"
walkdir = "2"
x509-cert = { version = "0.2", features = ["pem"] }
yubikey = "0.8"
zeroize = "1"
bytes = "1"
