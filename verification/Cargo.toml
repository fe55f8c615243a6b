[package]
name = "nyado"
version = "0.1.0"
edition = "2021"
publish = false

[dependencies]
anyhow = "1"
chrono = "0.4"
crossterm = "0.27"
csv = "1"
dirs = "5"
rand = "0.8"
ratatui = "0.26"
serde = { version = "1", features = ["derive"] }
serde_json = "1"
serde_yaml = "0.9"
single-instance = "0.3"
toml = "0.8"
unicode-width = "0.1"
