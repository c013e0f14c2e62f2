[package]
name = "temporal_db"
version = "0.1.0"
edition = "2021"
publish = false

[dependencies]
zstd = "=0.14.0"
crc32fast = "=1.5.2"
uuid = { version = "=1.27.0", features = ["v4"] }
chrono = "=0.4.45"
clap = { version = "=4.6.7", features = ["derive"] }
serde = { version = "=1.0.229", features = ["derive"] }
serde_json = "=1.0.151"
tokio = { version = "=1.53.2", features = ["macros", "rt"] }
