[package]
name = "vault"
version = "0.1.0"
edition = "2021"
publish = false

[dependencies]
anyhow = "=1.0.104"
chrono = { version = "=0.4.45", features = ["serde"] }
futures = "=0.3.34"
heapless = "=0.9.3"
itertools = "=0.14.0"
log = "=0.4.35"
reqwest = { version = "=0.12.28", default-features = false, features = ["multipart", "stream"] }
serde = { version = "=1.0.229", features = ["derive"] }
serde_json = "=1.0.154"
smol = "=2.0.2"
spin = "=0.12.3"
sysinfo = "=0.37.2"
