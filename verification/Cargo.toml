[package]
name = "apple_tv"
version = "0.1.0"
edition = "2021"
publish = false

[dependencies]
chacha20poly1305 = "=0.10.1"
ed25519-dalek = "=2.2.0"
hkdf = "=0.12.4"
num-bigint = "=0.4.8"
rand_core = { version = "=0.6.4", features = ["getrandom"] }
sha2 = "=0.10.9"
srp = "=0.6.0"
x25519-dalek = { version = "=2.0.1", features = ["static_secrets"] }
