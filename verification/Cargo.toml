[package]
name = "bottomless"
version = "0.1.0"
edition = "2021"
publish = false

[dependencies]
anyhow = "=1.0.104"
arc-swap = "=1.9.2"
async-compression = { version = "=0.4.50", features = ["tokio", "gzip"] }
async-lock = "=3.4.2"
async-trait = "=0.1.92"
aws-config = "=1.12.0"
aws-sdk-s3 = "=1.152.0"
bytes = "=1.12.1"
chrono = "=0.4.45"
enclose = "=1.2.1"
flate2 = "=1.1.10"
futures-core = "=0.3.34"
hyper = "=1.12.0"
rusqlite = { version = "=0.40.2", features = ["bundled"] }
tokio = { version = "=1.53.2", features = ["rt", "rt-multi-thread", "io-util", "fs", "sync", "time", "macros"] }
tokio-util = { version = "=0.7.19", features = ["io"] }
tonic = "=0.14.6"
tracing = "=0.1.44"
uuid = { version = "=1.27.0", features = ["v7"] }
