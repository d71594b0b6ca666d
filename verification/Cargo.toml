[package]
name = "burner_watcher"
version = "0.1.0"
edition = "2021"
publish = false

[dependencies]
chrono = "*"
gpio-cdev = "*"
rusqlite = { version = "*", features = ["bundled"] }
toml = "*"
env_logger = "*"
log = "*"
