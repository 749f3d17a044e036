[package]
name = "tt"
version = "0.1.0"
edition = "2021"
publish = false

[dependencies]
anyhow = "1"
bincode = "1"
crossterm = "0.28"
rand = "0.8"
ratatui = "0.29"
serde = { version = "1", features = ["derive"] }
socket2 = "0.5"
