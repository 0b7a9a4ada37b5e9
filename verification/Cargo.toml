[package]
name = "otmp"
version = "0.1.0"
edition = "2021"
publish = false

[dependencies]
async-trait = "0.1"
fs2 = "0.4"
futures-util = "0.3"
hex = "0.4"
rusqlite = { version = "*", features = ["bundled"] }
serde = { version = "1", features = ["derive"] }
serde_json = "1"
sha2 = "0.10"
tempfile = "3"
thiserror = "2"
tokio = { version = "1", features = ["fs", "io-util", "rt", "rt-multi-thread", "sync", "macros", "time"] }
tracing = "0.1"
turso_core = "0.7.2"
uuid = { version = "1", features = ["v7"] }
zstd = "0.13"
