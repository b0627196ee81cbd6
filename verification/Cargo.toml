[package]
name = "matching_engine"
version = "0.1.0"
edition = "2021"
publish = false

[dependencies]
chrono = { version = "=0.4.45", features = ["serde"] }
uuid = { version = "=1.27.0", features = ["v4", "serde"] }
serde = { version = "=1.0.229", features = ["derive"] }
serde_json = "=1.0.151"
redis = { version = "=1.7.1", features = ["tokio-comp", "connection-manager"] }
tokio = { version = "=1.53.2", features = ["rt-multi-thread", "macros", "signal", "sync", "time"] }
rust_decimal = { version = "=1.43.0", features = ["serde-with-str"] }
