[package]
name = "speedtest_rs"
version = "2.0.0"
edition = "2021"
publish = false

[dependencies]
serde_json = "1"
num_cpus = "1"
anyhow = "1"
clap = { version = "4", features = ["derive"] }
reqwest = { version = "0.12", default-features = false, features = ["blocking", "rustls-tls"] }
indicatif = "0.17"
ratatui = "0.29"
crossterm = "0.28"
