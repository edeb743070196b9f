[package]
name = "retorrent"
version = "0.1.0"
edition = "2021"
publish = false

[dependencies]
anyhow = "1"
byteorder = "1"
chrono = "0.4"
crc32c = "0.6"
dashmap = "6"
dirs = "*"
futures = "0.3"
hex = "0.4"
igd = "0.12"
lru = "*"
memmap2 = "0.9"
parking_lot = "0.12"
rand = "*"
reqwest = { version = "0.12", default-features = false, features = ["rustls-tls", "blocking"] }
serde = { version = "1", features = ["derive"] }
serde_json = "1"
sha1 = "*"
thiserror = "2"
tokio = { version = "1", features = ["full"] }
tokio-util = "0.7"
tracing = "0.1"
tracing-subscriber = { version = "0.3", features = ["env-filter"] }
url = "2"
urlencoding = "2"
