[package]
name = "remote_codex_core"
version = "0.1.0"
edition = "2021"
publish = false

[dependencies]
serde = { version = "1", features = ["derive"] }
serde_json = "1"
toml_edit = "0.22"
chrono = "0.4"
dirs = "5"
keyring = "3"
rusqlite = "0.32"
walkdir = "2"
thiserror = "1"
