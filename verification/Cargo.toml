[package]
name = "portscanner"
version = "0.1.0"
edition = "2021"
publish = false

[dependencies]
anyhow = "1"
chrono = "0.4"
clap = { version = "4", features = ["derive"] }
crossterm = "0.28"
futures = "0.3"
ipnet = "2"
ratatui = "0.28"
tokio = { version = "1", features = ["rt-multi-thread", "macros", "net", "time", "fs", "sync"] }
zip = { version = "0.6", default-features = false, features = ["deflate"] }
