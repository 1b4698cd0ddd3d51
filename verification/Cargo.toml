[package]
name = "herdr_hosts"
version = "0.1.0"
edition = "2021"
publish = false

[dependencies]
glob = "0.3"
ratatui = "0.29"
serde_json = "1"
