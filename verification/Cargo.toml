[package]
name = "stasher"
version = "0.1.0"
edition = "2021"
publish = false

[dependencies]
blake3 = "=1.8.7"
similar = "=2.7.0"
uuid = { version = "=1.29.0", features = ["v4"] }
chrono = "=0.4.45"
anyhow = "=1.0.104"
clap = { version = "=4.6.7", features = ["derive"] }
tokio = { version = "=1.54.1", features = ["rt-multi-thread", "macros", "sync"] }
sqlx = { version = "=0.8.6", default-features = false, features = ["sqlite", "runtime-tokio"] }
notify = "=6.1.1"
serde = { version = "=1.0.229", features = ["derive"] }
futures-util = "=0.3.34"
fastembed = { version = "=7.5.0", default-features = false, features = ["ort-load-dynamic", "hf-hub-rustls-tls"] }
arrow-array = "=60.0.0"
arrow-schema = "=60.0.0"
