[package]
name = "host_metrics"
version = "0.1.0"
edition = "2021"
publish = false

[dependencies]
axum = "*"
axum-client-ip = "*"
http = "*"
log = "*"
rusqlite = { version = "*", features = ["bundled"] }
serde_json = "*"
tokio = { version = "*", features = ["rt-multi-thread", "macros", "net", "time"] }
tower = "*"
tower-http = { version = "*", features = ["trace"] }
tracing = "*"
tracing-subscriber = { version = "*", features = ["env-filter", "fmt"] }
