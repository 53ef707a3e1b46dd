[package]
name = "auddyseus"
version = "0.1.0"
edition = "2021"
publish = false

[dependencies]
dirs = "=5.0.1"
serde = { version = "=1.0.229", features = ["derive"] }
toml = "=0.8.23"
crossterm = "=0.28.1"
ratatui = "=0.28.1"
symphonia = "=0.5.5"
reqwest = { version = "=0.12.28", default-features = false, features = ["blocking"] }
libc = "=0.2.191"
rodio = { version = "0.19", default-features = false }
