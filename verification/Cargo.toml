[package]
name = "naia_lite"
version = "0.1.0"
edition = "2021"
publish = false

[dependencies]
rand = "0.9"
log = "0.4"
x25519-dalek = "2"
chacha20poly1305 = "0.10"
