[package]
name = "gpsdxo"
version = "0.1.0"
edition = "2021"
publish = false

[dependencies]
anyhow = "1"
bytes = "1"
chrono = "0.4"
clap = { version = "4", features = ["derive"] }
crossbeam = "0.8"
crossterm = "0.28"
futures = "0.3"
ratatui = "0.29"
tokio = { version = "1", features = ["macros", "rt-multi-thread"] }
tokio-serial = "5.4"
tokio-util = { version = "0.7", features = ["codec"] }
