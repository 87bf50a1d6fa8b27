[package]
name = "rate_guard"
version = "0.1.0"
edition = "2021"
publish = false

[dependencies]
jsonwebtoken = "9"
base64 = "0.21"
chrono = "0.4"
axum = "0.6"
tower = "0.4"
futures = "0.3"
tokio = { version = "1", features = ["full"] }
redis = { version = "*", features = ["r2d2"] }
r2d2 = "0.8"
serde = { version = "1", features = ["derive"] }
serde_json = "1"
bytes = "1"
async-stream = "0.3"
tera = "1"

[dev-dependencies]
uuid = { version = "1", features = ["v4"] }
