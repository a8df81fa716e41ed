[package]
name = "wmux"
version = "0.1.0"
edition = "2021"
publish = false

[dependencies]
anyhow = "1"
chrono = "0.4"
dirs = "*"
log = "0.4"
portable-pty = "*"
serde_json = "1"
tokio = { version = "1", features = ["rt-multi-thread", "sync", "time", "macros"] }
unicode-width = "0.2"
vt100 = "*"
