[package]
name = "chaff"
version = "0.6.1"
edition = "2021"
publish = false

[dependencies]
anyhow = "1"
clap = { version = "4", features = ["derive"] }
clap_complete = "4"
crossterm = "*"
globset = "0.4"
humansize = "2"
ratatui = "*"
rayon = "1"
serde = { version = "1", features = ["derive"] }
serde_json = "1"
toml = "*"
trash = "*"
walkdir = "2"
