[package]
name = "wisp_cli"
version = "0.1.0"
edition = "2021"
publish = false

[dependencies]
axum = { version = "=0.8.9", default-features = false, features = ["tokio", "http1"] }
base64 = "=0.22.1"
bytes = "=1.12.1"
chrono = { version = "=0.4.45", default-features = false, features = ["clock"] }
clap = { version = "=4.6.7", features = ["derive"] }
flate2 = "=1.1.10"
futures = "=0.3.34"
http = "=1.5.0"
jacquard-common = "=0.9.5"
jacquard-identity = "=0.9.5"
miette = "=7.6.0"
mime_guess = "=2.0.5"
multibase = "=0.9.3"
multihash = "=0.19.5"
n0-future = "=0.3.2"
regex = "=1.13.1"
reqwest = { version = "=0.12.28", default-features = false }
serde = { version = "=1.0.229", features = ["derive"] }
serde_json = "=1.0.154"
sha2 = "=0.10.9"
tokio = { version = "=1.54.1", features = ["rt-multi-thread", "macros", "net", "fs", "time", "sync"] }
tower = { version = "=0.5.3", default-features = false }
tower-http = { version = "=0.6.11", default-features = false, features = ["fs", "compression-gzip"] }
url = "=2.5.8"
