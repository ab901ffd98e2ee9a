[package]
name = "sis_crystal"
version = "0.1.0"
edition = "2021"
publish = false

[dependencies]
battery = "*"
chrono = "*"
dirs = "*"
serde = { version = "*", features = ["derive"] }
serde_json = "*"
sysinfo = "*"
walkdir = "*"
whoami = "*"
