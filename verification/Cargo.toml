[package]
name = "sobj"
version = "0.5.0"
edition = "2021"
publish = false

[dependencies]
percent-encoding = "2"
urlencoding = "2"
mime_guess = "2"
axum = "0.7"
axum-server = { version = "0.7", features = ["tls-rustls-no-provider"] }
rustls = { version = "0.23", default-features = false, features = ["ring", "std", "tls12", "logging"] }
tokio = { version = "1", features = ["full"] }
tokio-util = { version = "0.7", features = ["io"] }
futures-util = "0.3"
serde = { version = "1", features = ["derive"] }
serde_json = "1"
walkdir = "2"
time = { version = "0.3", features = ["formatting"] }
tracing = "0.1"
tracing-subscriber = { version = "0.3", features = ["env-filter"] }
tower = "0.4"
tower-http = { version = "0.5", features = ["trace"] }
reqwest = { version = "0.12", default-features = false, features = ["rustls-tls", "stream"] }
clap = { version = "4", features = ["derive"] }
anyhow = "1"
indicatif = "0.17"
