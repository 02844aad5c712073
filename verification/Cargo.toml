[package]
name = "choreo_core"
version = "0.1.0"
edition = "2021"
publish = false

[dependencies]
partially = { version = "0.2", features = ["derive"] }
serde = { version = "1", features = ["derive"] }
serde_json = "1"
sqlx = { version = "0.7", default-features = false, features = ["sqlite", "runtime-tokio", "macros"] }
sqlxinsert = "*"
