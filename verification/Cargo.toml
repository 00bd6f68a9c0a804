[package]
name = "iot_metrics"
version = "0.1.0"
edition = "2021"
publish = false

[dependencies]
axum = "=0.7.9"
chrono = { version = "=0.4.45", features = ["serde"] }
dotenvy = "=0.15.7"
reqwest = { version = "=0.12.28", default-features = false, features = ["json"] }
serde = { version = "=1.0.229", features = ["derive"] }
sqlx = { version = "=0.7.4", default-features = false, features = ["runtime-tokio", "postgres", "chrono", "uuid", "macros"] }
tokio = { version = "=1.54.1", features = ["full"] }
utoipa = { version = "=4.2.3", features = ["axum_extras", "chrono"] }
utoipa-swagger-ui = { version = "=7.1.0", features = ["axum", "vendored"] }
uuid = { version = "=1.29.0", features = ["serde"] }
