[package]
name = "yotepack"
version = "0.1.0"
edition = "2021"
publish = false

[dependencies]
anyhow = "1"
axum = "0.7"
blake3 = "1"
chrono = "0.4"
clap = { version = "4", features = ["derive"] }
fjall = "*"
futures = "0.3"
md-5 = "0.10"
parking_lot = "0.12"
percent-encoding = "2"
quick-xml = "0.37"
reed-solomon-simd = "3"
serde = { version = "1", features = ["derive"] }
serde_json = "1"
thiserror = "2"
tokio = { version = "1", features = ["rt-multi-thread", "net", "macros", "signal"] }
toml = "0.8"
tracing = "0.1"
tracing-subscriber = { version = "0.3", features = ["env-filter"] }
uuid = { version = "1", features = ["v4"] }
walkdir = "2"
xattr = "1"
xxhash-rust = { version = "0.8", features = ["xxh3"] }
zstd = "0.13"
capnp = "*"
camino = "1"
dashmap = "6"
