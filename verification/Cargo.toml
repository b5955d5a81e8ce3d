[package]
name = "dispatch_log"
version = "0.1.0"
edition = "2021"
publish = false

[dependencies]
anyhow = "*"
chrono = { version = "*", features = ["serde"] }
poem = "*"
reqwest = { version = "*", default-features = false, features = ["json", "rustls-tls"] }
serde = { version = "*", features = ["derive"] }
sqlx = { version = "*", default-features = false, features = ["runtime-tokio", "sqlite", "chrono", "migrate"] }
tokio = { version = "*", features = ["macros", "rt-multi-thread", "time", "sync"] }
