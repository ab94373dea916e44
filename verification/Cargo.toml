[package]
name = "fsm_core"
version = "0.1.0"
edition = "2021"
publish = false

[dependencies]
anyhow = "1"
argon2 = "0.5"
bincode = "1.3"
blake3 = "1"
chacha20poly1305 = "0.10"
clap = { version = "4", features = ["derive"] }
ctrlc = "3"
fastcdc = "3"
fs2 = "0.4"
fuser = { version = "0.17", default-features = false }
libc = "0.2"
rand = "0.8"
rmp-serde = "1"
serde = { version = "1", features = ["derive"] }
zeroize = "1"
zstd = "0.13"
