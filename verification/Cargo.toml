[package]
name = "nixbench"
version = "0.1.0"
edition = "2021"
publish = false

[dependencies]
chrono = "0.4"
clap = { version = "4", features = ["derive"] }
futures = "0.3"
indicatif = "*"
inquire = "*"
serde = { version = "1", features = ["derive"] }
serde_json = "1"
thiserror = "*"
tokio = { version = "1", features = ["full"] }
tracing = "0.1"
tracing-indicatif = "*"
tracing-subscriber = { version = "0.3", features = ["env-filter"] }
udev = "*"
