[package]
name = "murmr"
version = "0.1.0"
edition = "2021"
publish = false

[dependencies]
anyhow = "1"
bytemuck = "1"
chacha20poly1305 = "0.10"
cpal = "0.15"
hkdf = "0.12"
rand = "0.9"
rand_core = { version = "0.6", features = ["getrandom"] }
ringbuf = "0.4"
sha2 = "0.10"
tokio = { version = "1", features = ["net", "rt", "rt-multi-thread", "macros"] }
x25519-dalek = { version = "2", features = ["getrandom"] }
