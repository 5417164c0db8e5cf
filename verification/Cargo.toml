[package]
name = "kumod"
version = "0.1.0"
edition = "2021"
publish = false

[dependencies]
anyhow = "1"
mlua = { version = "0.8", features = ["vendored", "lua54", "async", "send", "serialize"] }
serde = { version = "1", features = ["derive"] }
tokio = { version = "1", features = ["rt"] }
tracing = "0.1"
