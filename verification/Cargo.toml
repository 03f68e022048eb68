[package]
name = "rust-im"
version = "0.1.0"
edition = "2021"
publish = false

[dependencies]
aes-gcm = "=0.10.3"
anyhow = "1"
bytes = "=1.12.1"
clap = { version = "4", features = ["derive"] }
crossterm = { version = "0.29", features = ["event-stream"] }
ed25519-dalek = { version = "=2.2.0", features = ["rand_core"] }
futures = "0.3"
hkdf = "=0.12.4"
jni = "0.21"
rand = "=0.8.8"
ratatui = "0.29"
rcgen = "=0.13.2"
rustls = { version = "=0.23.46", default-features = false, features = ["ring", "std", "tls12"] }
serde_json = "=1.0.154"
sha2 = "=0.10.9"
socket2 = "0.5"
tokio = { version = "1", features = ["full"] }
x25519-dalek = { version = "=2.0.1", features = ["static_secrets"] }
zeroize = "=1.9.1"
