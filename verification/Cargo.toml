[package]
name = "artifact_store"
version = "0.1.0"
edition = "2021"
publish = false

[dependencies]
serde = { version = "=1.0.229", features = ["derive"] }
serde_json = "=1.0.151"
time = { version = "=0.3.55", features = ["serde-well-known", "formatting"] }
tokio = { version = "=1.53.2", features = ["full"] }
axum = "=0.8.9"
futures-util = "=0.3.34"
tokio-util = { version = "=0.7.19", features = ["io"] }
tower-http = { version = "=0.7.1", features = ["timeout", "trace"] }
hyper = { version = "=1.11.1", features = ["http1", "server"] }
hyper-util = { version = "=0.1.21", features = ["tokio"] }
tower-service = "=0.3.3"
tracing = "=0.1.44"
tracing-subscriber = { version = "=0.3.23", features = ["json"] }
