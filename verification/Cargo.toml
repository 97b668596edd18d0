[package]
name = "market_replay"
version = "0.1.0"
edition = "2021"
publish = false

[dependencies]
binance = "*"
chrono = "*"
clap = { version = "*", features = ["derive"] }
color-eyre = "*"
crossfire = "*"
crossterm = "*"
human-repr = "*"
indicatif = "*"
ratatui = "*"
serde = { version = "*", features = ["derive"] }
serde_json = "*"
tokio = { version = "*", features = ["rt-multi-thread", "macros", "time", "sync"] }
tungstenite = "*"
url = "*"
