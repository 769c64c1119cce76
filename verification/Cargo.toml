[package]
name = "rust_lin"
version = "0.1.0"
edition = "2021"
publish = false

[dependencies]
async-trait = "=0.1.92"
base64 = "0.22"
chrono = { version = "=0.4.45", default-features = false, features = ["clock", "std", "serde"] }
clap = { version = "=4.6.7", features = ["derive"] }
hex = "=0.4.3"
serde = { version = "=1.0.229", features = ["derive"] }
serde_json = "=1.0.154"
thiserror = "=1.0.69"
tokio = { version = "=1.54.1", features = ["full"] }
