[package]
name = "mlx-whisper-rs"
version = "0.1.0"
edition = "2021"
publish = false

[dependencies]
anyhow = "1"
base64 = "=0.22.1"
flate2 = { version = "=1.1.10", default-features = false, features = ["zlib"] }
hf-hub = { version = "=0.4.3", default-features = false, features = ["ureq", "rustls-tls"] }
mlx-rs = "=0.25.3"
serde = { version = "1", features = ["derive"] }
serde_json = "1"
zip = { version = "=2.6.1", default-features = false, features = ["deflate-zlib"] }
