[package]
name = "cyrene"
version = "0.1.0"
edition = "2021"
publish = false

[dependencies]
anyhow = "1"
base64 = "0.22"
blake3 = "1"
chacha20poly1305 = "0.10"
clap = { version = "4", features = ["derive"] }
ed25519-dalek = "2"
getrandom = "0.3"
keyring = "3"
mdns-sd = "0.17"
proc-macro2 = "1"
quinn = "0.11"
quote = "1"
rcgen = "0.14"
rusqlite = { version = "0.37", features = ["bundled", "backup", "serialize"] }
rustls = "0.23"
serde = { version = "1", features = ["derive"] }
serde_json = "1"
spake2 = "0.4"
syn = { version = "2", features = ["full"] }
tempfile = "3"
thiserror = "2"
tokio = { version = "1", features = ["full"] }
ulid = { version = "1", features = ["serde"] }
zeroize = "1"
