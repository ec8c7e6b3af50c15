[package]
name = "websocket_balancer"
version = "0.1.0"
edition = "2021"
publish = false

[dependencies]
bytes = "0.5"
dashmap = "3"
env_logger = "0.7"
futures = "0.3"
http = "0.2"
httparse = "~1.3"
log = "0.4"
memchr = "2"
native-tls = "0.2"
rand = "0.7"
thiserror = "1"
tokio = { version = "0.2", features = ["full"] }
tokio-tls = "0.3"
tokio-tungstenite = "0.11"
tungstenite = "0.11"
