[package]
name = "mitos"
version = "0.1.0"
edition = "2021"
publish = false

[dependencies]
anyhow = "=1.0.104"
globset = "=0.4.21"
grep-matcher = "=0.1.9"
grep-regex = "=0.1.14"
grep-searcher = "=0.1.17"
ignore = "=0.4.34"
libc = "=0.2.191"
log = "=0.4.35"
parking_lot = "=0.12.5"
regex = "=1.13.1"
serde = { version = "=1.0.229", features = ["derive"] }
signal-hook = "=0.3.18"
tokio = { version = "=1.54.1", features = ["io-util", "macros", "process", "rt", "rt-multi-thread", "sync", "time"] }
toml = "=0.8.23"
