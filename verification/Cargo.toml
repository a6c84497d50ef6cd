[package]
name = "idirfein_server"
version = "0.1.0"
edition = "2021"
publish = false

[dependencies]
dirs = "*"
fast_rsync = "*"
rocket = "0.5"
rocket_ws = "0.1"
serde = { version = "1", features = ["derive"] }
serde_json = "1"
totp-rs = "5"
walkdir = "2"
