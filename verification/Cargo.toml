[package]
name = "orionis"
version = "0.1.0"
edition = "2021"
publish = false

[dependencies]
uuid = { version = "1", features = ["v4", "serde"] }
serde = { version = "1", features = ["derive"] }
serde_json = "1"
anyhow = "1"
async-trait = "0.1"
lazy_static = "1"
futures = "0.3"
futures-util = "0.3"
tracing = "0.1"
tracing-subscriber = "0.3"
tokio = { version = "1", features = ["full"] }
tokio-stream = "0.1"
chrono = "0.4"
rand = "0.8"
clap = { version = "4", features = ["derive"] }
memory-stats = "1"
redb = "2"
axum = { version = "0.8", features = ["ws"] }
tower-http = { version = "0.6", features = ["cors"] }
reqwest = { version = "0.12", default-features = false, features = ["json"] }
ureq = { version = "2", default-features = false }
prometheus = { version = "0.13", default-features = false }
jsonwebtoken = "9"
clickhouse = "*"
