[package]
name = "prtl_proxy"
version = "0.1.0"
edition = "2021"
publish = false

[dependencies]
blake3 = "*"
axum = "*"
tokio = { version = "*", features = ["full"] }
async-nats = "*"
redis = { version = "*", features = ["tokio-comp", "connection-manager"] }
futures-util = "*"
tracing = "*"
tracing-subscriber = { version = "*", features = ["env-filter"] }
async-trait = "*"
simd-json = "*"
http = "*"
