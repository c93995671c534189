[package]
name = "transcript-verify"
version = "0.1.0"
edition = "2021"
publish = false

[dependencies]
blake3 = { version = "=1.8.7", default-features = false, features = ["pure"] }
serde = { version = "=1.0.229", features = ["derive"] }
yamux = "=0.13.10"
tokio = { version = "=1.54.1", features = ["sync"] }
futures = "=0.3.34"
async-trait = "=0.1.92"
rayon = "=1.12.0"
serio = "*"
