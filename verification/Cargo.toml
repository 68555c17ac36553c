[package]
name = "talespin"
version = "0.1.0"
edition = "2021"
publish = false

[dependencies]
rand = "0.8"
anyhow = "1"
axum = { version = "0.7", features = ["ws"] }
tokio = { version = "1", features = ["rt-multi-thread", "macros", "sync", "net", "time", "fs"] }
serde = { version = "1", features = ["derive"] }
serde_json = "1"
dashmap = "*"
tower-http = { version = "0.5", features = ["cors"] }
sha2 = "0.10"
infer = "*"
