[package]
name = "axum_websockets"
version = "0.1.0"
edition = "2021"
publish = false

[dependencies]
glob = "0.3"
tokio = { version = "1", features = ["rt-multi-thread", "macros", "net", "time", "sync"] }
axum = { version = "*", features = ["ws"] }
futures = "0.3"
systemstat = "*"

[dev-dependencies]
serde_json = "1"
