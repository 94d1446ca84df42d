[package]
name = "veil"
version = "0.1.0"
edition = "2021"
publish = false

[dependencies]
async-trait = "0.1"
base64 = "0.22"
bytes = "1"
clap = { version = "4", features = ["derive"] }
etherparse = "0.16"
hex = "0.4"
hmac = "0.12"
pcap = "2"
serde = { version = "1", features = ["derive"] }
serde_json = "1"
sha2 = "0.10"
sqlx = { version = "0.8", default-features = false, features = ["runtime-tokio", "sqlite"] }
subtle = "2"
thiserror = "2"
tokio = { version = "1", features = ["full"] }
tokio-rustls = { version = "0.26", default-features = false, features = ["ring"] }
tokio-util = { version = "0.7", features = ["codec"] }
tracing = "0.1"
zeroize = "1"

[dev-dependencies]
rand = "0.8"
rand_chacha = "0.3"
