[package]
name = "bolina"
version = "0.1.0"
edition = "2021"
publish = false

[dependencies]
blake2 = "0.10"
chacha20poly1305 = "0.10"
ed25519-dalek = "2"
x25519-dalek = "2"
rand_core = { version = "0.6", features = ["getrandom"] }
subtle = "2"
ctrlc = "3"
shellexpand = "3"
