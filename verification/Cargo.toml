[package]
name = "hitbtc"
version = "0.1.0"
edition = "2021"
publish = false

[dependencies]
chrono = "*"
colored = "*"
env_logger = "*"
futures = "0.3"
log = "*"
serde = { version = "1", features = ["derive"] }
serde_json = "1"
simble = "*"
tokio = { version = "1", features = ["macros", "rt-multi-thread"] }
tokio-tungstenite = "*"
tungstenite = "*"
url = "*"
