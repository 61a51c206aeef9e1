[package]
name = "gcviz"
version = "0.1.0"
edition = "2021"
publish = false

[dependencies]
rand = "0.8"
serde = { version = "1", features = ["derive"] }
serde_json = "1"
serde_yaml = "0.9"
tokio = { version = "1", features = ["macros", "rt-multi-thread", "net"] }
tokio-tungstenite = "0.20"
tungstenite = "0.20"
futures-util = "0.3"
env_logger = "0.10"
log = "0.4"
lazy_static = "1"
ratatui = "0.22"
crossterm = "0.26"
