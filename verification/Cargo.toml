[package]
name = "kitaebot"
version = "0.1.0"
edition = "2021"
publish = false

[dependencies]
landlock = "*"
regex = "1"
rusqlite = { version = "*", features = ["backup", "functions"] }
schemars = "1"
serde = { version = "1", features = ["derive"] }
serde_json = "1"
sha2 = "0.10"
thiserror = "2"
tokio = { version = "1", features = ["fs", "macros", "process", "rt-multi-thread", "signal", "sync", "time"] }
tokio-util = "0.7"
toml = "*"
tracing = "0.1"
tracing-appender = "0.2"
tracing-subscriber = { version = "0.3", features = ["json", "registry"] }
