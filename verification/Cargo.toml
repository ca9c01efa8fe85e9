[package]
name = "terax"
version = "0.1.0"
edition = "2021"
publish = false

[dependencies]
dirs = "6"
globset = "0.4"
log = "0.4"
portable-pty = "0.9"
serde = { version = "1", features = ["derive"] }
serde_json = "1"
ssh2 = "0.9"
tauri = { version = "2", default-features = false }
