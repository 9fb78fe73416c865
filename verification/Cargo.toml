[package]
name = "freemind"
version = "0.1.0"
edition = "2021"
publish = false

[dependencies]
rand = "0.8"
chrono = "0.4"
cron = "0.12"
clap = { version = "4", features = ["cargo"] }
confy = "0.5"
crossterm = "0.25"
dirs = "5"
reqwest = { version = "0.11", default-features = false }
serde = { version = "1", features = ["derive"] }
tokio = { version = "1", features = ["rt", "macros"] }
tui = "0.19"
