[package]
name = "repo_reaper"
version = "0.1.0"
edition = "2021"
publish = false

[dependencies]
rust-stemmers = "*"
url = "*"
stop-words = "*"
rayon = "*"
dashmap = "*"
walkdir = "*"
notify = "*"
clap = { version = "*", features = ["derive"] }
serde = { version = "*", features = ["derive"] }
serde_json = "*"
chrono = "*"
config = { version = "*", default-features = false, features = ["yaml"] }
