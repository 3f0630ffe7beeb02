[package]
name = "nets"
version = "0.1.0"
edition = "2021"
publish = false

[dependencies]
anyhow = "1"
clap = { version = "4", features = ["derive"] }
crossterm = "0.27"
ratatui = "0.26"
tokio = { version = "1", features = ["full"] }
procfs = "0.16"
dns-lookup = "2"
get_if_addrs = "0.5"
