[package]
name = "announce_cache"
version = "0.1.0"
edition = "2021"
publish = false

[dependencies]
anyhow = "=1.0.104"
bytes = "=1.12.1"
futures = "=0.3.34"
percent-encoding = "=2.3.2"
rand = "=0.10.3"
reqwest = { version = "=0.13.5", default-features = false, features = ["gzip"] }
serde = "=1.0.229"
serde_derive = "=1.0.229"
sha2 = "=0.11.0"
tokio = { version = "=1.53.2", features = ["full"] }
url = "=2.5.8"
warp = { version = "=0.4.3", features = ["multipart", "server"] }
