[package]
name = "zresmon"
version = "1.0.0"
edition = "2021"
publish = false

[dependencies]
anyhow = "=1.0.104"
clap = { version = "=4.6.7", features = ["derive"] }
crossterm = "=0.28.1"
ratatui = "=0.29.0"
ratatui-ppalla = "=0.0.3"
serde = { version = "=1.0.229", features = ["derive"] }
serde_json = "=1.0.154"
