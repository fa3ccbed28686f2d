[package]
name = "kissvpn"
version = "0.1.0"
edition = "2021"
publish = false

[dependencies]
aead = { version = "0.5", features = ["bytes"] }
anyhow = "1"
bytes = "1"
chacha20poly1305 = { version = "0.10", features = ["reduced-round"] }
clap = { version = "4", features = ["derive"] }
clap-verbosity-flag = "2"
hkdf = "0.12"
log = "0.4"
nix = { version = "0.29", features = ["event", "ioctl"] }
rand = "0.8"
sha2 = "0.10"
simple_logger = "5"
