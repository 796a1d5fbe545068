[package]
name = "guardian"
version = "0.1.0"
edition = "2021"
publish = false

[dependencies]
chrono = "*"
uuid = { version = "*", features = ["v4"] }
actix-web = "*"
aws-config = "*"
aws-sdk-dynamodb = "*"
serde = { version = "*", features = ["derive"] }
serde_json = "*"
tokio = { version = "*", features = ["sync", "rt-multi-thread", "macros"] }
tracing = "*"
lazy_static = "*"
