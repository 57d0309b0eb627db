[package]
name = "mare_website"
version = "0.1.0"
edition = "2021"
publish = false

[dependencies]
anyhow = "=1.0.104"
askama = "=0.12.1"
askama_axum = "=0.4.0"
axum = { version = "=0.7.9", features = ["macros"] }
chrono = { version = "=0.4.45", features = ["serde"] }
futures = "=0.3.34"
log = "=0.4.34"
reqwest = { version = "=0.12.28", default-features = false, features = ["json"] }
serde = { version = "=1.0.229", features = ["derive"] }
sqlx = { version = "=0.8.6", default-features = false, features = ["runtime-tokio", "postgres", "chrono", "migrate"] }
tokio = { version = "=1.54.1", features = ["full"] }
tower-http = { version = "=0.5.2", features = ["trace"] }
tracing = "=0.1.44"
tracing-loki = { version = "=0.2.7", default-features = false, features = ["compat-0-2-1"] }
tracing-subscriber = { version = "=0.3.23", features = ["env-filter"] }
ulid = "=1.2.1"
url = "=2.5.8"
