[package]
name = "chat_server"
version = "0.1.0"
edition = "2021"
publish = false

[dependencies]
anyhow = "1"
clap = { version = "4", features = ["derive"] }
compact_str = "=0.7.1"
crossterm = { version = "0.28", features = ["event-stream"] }
fastrand = "=2.5.0"
futures = "0.3"
ratatui = "0.29"
textwrap = "=0.16.4"
tokio = { version = "=1.54.1", features = ["sync", "net", "rt-multi-thread", "macros", "io-util", "time"] }
tokio-stream = "0.1"
tokio-util = { version = "=0.7.20", features = ["codec"] }
tracing = "0.1"
tracing-appender = "0.2"
tracing-subscriber = { version = "0.3", features = ["env-filter"] }
tui-textarea = "0.7"
