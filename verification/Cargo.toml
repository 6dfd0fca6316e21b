[package]
name = "petaddr"
version = "0.1.0"
edition = "2021"
publish = false

[dependencies]
anyhow = "1"
axum = "*"
bs58 = "*"
chrono = { version = "0.4", features = ["serde"] }
config = "*"
dashmap = "*"
dotenvy = "*"
serde = { version = "1", features = ["derive"] }
serde_json = "1"
sled = "*"
solana-sdk = "*"
tokio = { version = "1", features = ["full"] }
tower = "*"
tower-http = { version = "*", features = ["cors", "trace"] }
tracing = "*"
tracing-subscriber = "*"
utoipa = { version = "*", features = ["chrono"] }
utoipa-swagger-ui = { version = "*", features = ["axum"] }
