[package]
name = "glidefs"
version = "0.1.0"
edition = "2021"
publish = false

[dependencies]
crc-fast = "1"
chrono = "0.4"
dashmap = "6"
smallvec = "1"
anyhow = "1"
bytes = "1"
clap = { version = "4", features = ["derive"] }
futures = "0.3"
libc = "0.2"
object_store = "0.12"
parking_lot = "0.12"
rayon = "1"
serde = { version = "1", features = ["derive"] }
serde_json = "1"
tempfile = "3"
thiserror = "2"
tokio = { version = "1", features = ["full"] }
tracing = "0.1"
tracing-subscriber = { version = "0.3", features = ["env-filter"] }
