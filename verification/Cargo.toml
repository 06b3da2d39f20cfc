[package]
name = "greenrock"
version = "0.1.0"
edition = "2021"
publish = false

[dependencies]
serde_json = "*"
tokio = { version = "*", features = ["full"] }
tokio-tungstenite = "*"
tokio-util = "*"
futures-util = "*"
chrono = "*"
binance = "*"
dotenvy = "*"
tracing = "*"
tracing-subscriber = "*"
