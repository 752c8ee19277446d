[package]
name = "ptcgp_data"
version = "0.1.0"
edition = "2021"
publish = false

[dependencies]
anyhow = "=1.0.104"
clap = { version = "=4.6.7", features = ["derive"] }
futures = "=0.3.34"
reqwest = { version = "=0.12.28", default-features = false, features = ["gzip", "brotli", "rustls-tls"] }
rusqlite = { version = "=0.32.1", features = ["bundled"] }
rust_decimal = { version = "=1.43.0", features = ["serde-with-arbitrary-precision"] }
scraper = "=0.20.0"
serde = { version = "=1.0.229", features = ["derive"] }
serde_json = { version = "=1.0.154", features = ["arbitrary_precision"] }
tokio = { version = "=1.54.1", features = ["full"] }
tracing = "=0.1.44"
tracing-subscriber = { version = "=0.3.23", features = ["env-filter"] }
