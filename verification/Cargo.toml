[package]
name = "vortex_mod_1fichier"
version = "0.1.0"
edition = "2021"
publish = false

[dependencies]
serde = { version = "1", features = ["derive"] }
serde_json = "1"
thiserror = "*"
extism-pdk = "1"
regex-syntax = "0.8"

[dev-dependencies]
regex = "1"
