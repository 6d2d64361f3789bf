[package]
name = "blit"
version = "0.1.0"
edition = "2021"
publish = false

[dependencies]
lz4_flex = "=0.11.6"
ed25519-dalek = "=2.2.0"
sha2 = "=0.10.9"
base64 = "=0.22.1"
pbkdf2 = "=0.12.2"
hmac = "=0.12.1"
serde_json = "1"
