[package]
name = "sailfish"
version = "0.1.0"
edition = "2021"
publish = false

[dependencies]
anyhow = "=1.0.104"
async-trait = "=0.1.92"
bincode = "=1.3.3"
bytes = "=1.12.1"
chrono = "=0.4.45"
clap = "=2.34.0"
ed25519-dalek = "=1.0.1"
env_logger = "=0.9.3"
futures = "=0.3.34"
hyper = { version = "=0.14.32", features = ["server", "http1", "tcp"] }
lazy_static = "=1.5.1"
log = "=0.4.35"
prometheus = { version = "=0.13.4", default-features = false }
rand = { version = "=0.8.8", features = ["small_rng"] }
serde = { version = "=1.0.229", features = ["derive"] }
tokio = { version = "=1.54.1", features = ["rt-multi-thread", "macros", "net", "sync", "time", "fs", "io-util"] }
tokio-util = { version = "=0.7.20", features = ["codec"] }
