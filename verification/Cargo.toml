[package]
name = "nativelink-util"
version = "0.1.0"
edition = "2021"
publish = false

[dependencies]
lru = "*"
opentelemetry = "*"
async-lock = "*"
serde = { version = "1", features = ["derive"] }
tracing = "*"
