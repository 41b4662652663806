[package]
name = "hl-candles"
version = "0.1.0"
edition = "2021"
publish = false

[dependencies]
rust_decimal = "1"
lz4 = "1"
chrono = "0.4"
serde = { version = "1", features = ["derive"] }
serde_json = "1"
anyhow = "1"
clap = { version = "4", features = ["derive"] }
tokio = { version = "1", features = ["macros", "rt-multi-thread"] }
aws-config = "1"
aws-sdk-s3 = "1"
reqwest = { version = "0.12", default-features = false, features = ["json", "rustls-tls"] }
rayon = "1"
tracing = "0.1"
tracing-subscriber = "0.3"
