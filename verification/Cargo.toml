[package]
name = "rmon"
version = "0.1.0"
edition = "2021"
publish = false

[dependencies]
serde_json = "1"
ratatui = "0.29"
libc = "0.2"
anyhow = "1"
thiserror = "2"
