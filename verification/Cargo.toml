[package]
name = "friends_calendar"
version = "0.1.0"
edition = "2021"
publish = false

[dependencies]
chrono = { version = "=0.4.45", features = ["serde"] }
chrono-tz = "=0.10.4"
url = "=2.5.8"
rand = "=0.8.8"
axum = "=0.8.9"
uuid = { version = "=1.29.0", features = ["v4", "serde"] }
serde = { version = "=1.0.229", features = ["derive"] }
serde_json = { version = "=1.0.154", features = ["preserve_order"] }
tokio = { version = "=1.54.1", features = ["rt-multi-thread", "macros", "time", "net"] }
tower-http = { version = "=0.6.11", features = ["cors"] }
sqlx = { version = "=0.8.6", default-features = false, features = ["runtime-tokio", "postgres", "chrono", "uuid"] }
reqwest = { version = "=0.12.28", default-features = false, features = ["json", "rustls-tls"] }
jsonwebtoken = "=9.3.1"
anyhow = "=1.0.104"
tracing = "=0.1.44"
tracing-subscriber = "=0.3.23"
dotenvy = "=0.15.7"
