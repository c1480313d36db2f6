[package]
name = "kaas_lib"
version = "0.1.0"
edition = "2021"
publish = false

[dependencies]
anyhow = "1"
bytes = "1"
flate2 = "1"
futures = "0.3"
kafka-protocol = "0.17"
lz4 = "1"
proc-macro2 = "1"
quote = "1"
rand = "0.9"
snap = "1"
syn = { version = "2", features = ["full"] }
tokio = { version = "1", features = ["rt-multi-thread", "macros", "sync", "time"] }
tracing = "0.1"
tracing-subscriber = { version = "0.3", features = ["env-filter"] }
uuid = "1"
zstd = "0.13"

[dev-dependencies]
crc32c = "0.6"
