[package]
name = "iris"
version = "0.1.0"
edition = "2021"
publish = false

[dependencies]
redb = "2"
mime_guess = "2"
bincode = "1"
serde = { version = "1", features = ["derive"] }
serde_json = "1"
tokio = { version = "1", features = ["full"] }
tokio-stream = "0.1"
anyhow = "1"
tracing = "0.1"
tracing-subscriber = { version = "0.3", features = ["env-filter"] }
axum = "0.7"
futures = "0.3"
tower-http = { version = "0.6", features = ["cors"] }
clap = { version = "4", features = ["derive"] }
sysinfo = "0.33"
hostname = "0.4"
once_cell = "1"
tonic = "0.12"
prost = "0.13"

[dev-dependencies]
tempfile = "3"
