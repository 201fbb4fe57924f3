[package]
name = "ruvault"
version = "0.1.0"
edition = "2021"
publish = false

[dependencies]
aes-gcm = "0.10"
argon2 = "0.5"
clap = { version = "4", features = ["derive"] }
crossterm = "0.29"
ed25519-dalek = { version = "2", features = ["rand_core"] }
rand = "0.9"
rand_core = { version = "0.6", features = ["getrandom"] }
ratatui = "0.30"
sha2 = "0.10"
thiserror = "2"
tokio = { version = "1", features = ["full"] }
uuid = { version = "1", features = ["v7"] }
x25519-dalek = { version = "2", features = ["static_secrets"] }
zeroize = "1"

[dev-dependencies]
tempfile = "3"
