[package]
name = "axum_httpbin"
version = "0.2.0"
edition = "2021"
publish = false

[dependencies]
axum = "0.8"
base64 = "0.22"
cookie = "0.18"
futures = "0.3"
serde = { version = "1", features = ["derive"] }
serde_json = "1"
tokio = { version = "1", features = ["macros", "rt-multi-thread", "net", "time", "io-util"] }
tower = { version = "0.5", features = ["util"] }
tracing = "0.1"
tracing-subscriber = { version = "0.3", features = ["env-filter", "fmt"] }
utoipa = "5"
uuid = { version = "1", features = ["v4"] }
