[package]
name = "kiro_rs"
version = "0.1.0"
edition = "2021"
publish = false

[dependencies]
fastrand = "*"
uuid = { version = "*", features = ["v4"] }
chrono = { version = "*", default-features = false, features = ["clock"] }
axum = "*"
tokio = { version = "*", features = ["rt-multi-thread", "macros", "net", "time", "sync"] }
serde = { version = "*", features = ["derive"] }
serde_json = "*"
reqwest = { version = "*", default-features = false, features = ["rustls-tls", "json", "stream"] }
parking_lot = "*"
anyhow = "*"
clap = { version = "*", features = ["derive"] }
tracing = "*"
tracing-subscriber = { version = "*", features = ["env-filter"] }
tower-http = { version = "*", features = ["cors"] }
futures = "*"
bytes = "*"
rusqlite = { version = "*", features = ["bundled"] }
