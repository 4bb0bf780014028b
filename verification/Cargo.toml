[package]
name = "cupidmq"
version = "0.1.0"
edition = "2021"
publish = false

[dependencies]
bytes = "1"
anyhow = "1"
tokio = { version = "1", features = ["full"] }
serde = { version = "1", features = ["derive"] }
axum = "0.7"
tower-http = { version = "0.5", features = ["cors", "fs"] }
clap = { version = "4", features = ["derive", "env"] }
tracing = "0.1"
tracing-subscriber = { version = "0.3", features = ["env-filter"] }
socket2 = "0.5"
