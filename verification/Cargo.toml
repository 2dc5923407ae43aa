[package]
name = "rustclaw"
version = "1.0.0"
edition = "2021"
publish = false

[dependencies]
cozy-chess = "0.3"
byteorder = "1"
rand = "0.8"
rand_distr = "0.4"
serde = { version = "1", features = ["derive"] }
serde_json = "1"
anyhow = "1"
clap = { version = "4", features = ["derive"] }
tokio = { version = "1", features = ["full"] }
axum = { version = "0.7", features = ["ws"] }
rayon = "1"
indicatif = "0.17"
mimalloc = "0.1"
