[package]
name = "sysbar"
version = "0.1.0"
edition = "2021"
publish = false

[dependencies]
chrono = "0.4"
serde_json = "1"
spin_sleep = "1"
sysinfo = "0.18"
