[package]
name = "file_compressor"
version = "0.1.0"
edition = "2021"
publish = false

[dependencies]
circular-buffer = "=1.2.1"
crossterm = "=0.27.0"
itertools = "=0.12.1"
ratatui = "=0.25.0"
serde = { version = "=1.0.229", features = ["derive"] }
serde-big-array = "=0.5.1"
