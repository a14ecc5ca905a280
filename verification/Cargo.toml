[package]
name = "phantom_frame"
version = "0.1.0"
edition = "2021"
publish = false

[dependencies]
anyhow = "*"
axum = "*"
hyper = { version = "*", features = ["client", "http1"] }
hyper-util = { version = "*", features = ["tokio"] }
reqwest = { version = "*", default-features = false }
serde = { version = "*", features = ["derive"] }
tokio = { version = "*", features = ["rt-multi-thread", "macros", "net", "sync", "io-util"] }
toml = "*"
tracing = "*"
tracing-subscriber = "*"
