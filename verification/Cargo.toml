[package]
name = "spinyarn"
version = "0.9.0"
edition = "2021"
publish = false

[dependencies]
regex = "1"
flate2 = "1"
serde = { version = "1", features = ["derive"] }
serde_json = "1"
thiserror = "1"
once_cell = "1"
axum = "0.7"
tokio = { version = "1", features = ["rt-multi-thread", "macros", "net", "sync"] }
tower-http = { version = "0.5", features = ["cors", "trace"] }
tracing = "0.1"
tracing-subscriber = { version = "0.3", features = ["env-filter"] }
toml = "0.8"
ureq = "2"
utoipa = "4"
