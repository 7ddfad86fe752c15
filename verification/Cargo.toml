[package]
name = "dungeon"
version = "0.1.0"
edition = "2021"
publish = false

[dependencies]
rand = "=0.10.3"
symmetric-shadowcasting = "*"
terrain-forge = "=0.7.0"
serde = { version = "=1.0.229", features = ["derive"] }
serde_json = "=1.0.154"
bincode = "=1.3.3"
ratatui = "=0.29.0"
crossterm = "=0.28.1"
