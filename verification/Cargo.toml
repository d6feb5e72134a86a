[package]
name = "lolraft"
version = "0.1.0"
edition = "2021"
publish = false

[dependencies]
anyhow = "1"
async-trait = "0.1"
bincode = "1.3"
bytes = "1"
futures = "0.3"
rocksdb = "*"
serde = { version = "1", features = ["derive"] }
spin = "0.9"
thiserror = "1"
tokio = { version = "1", features = ["rt", "rt-multi-thread", "time", "sync", "macros"] }
tonic = "*"
