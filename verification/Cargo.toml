[package]
name = "todooer"
version = "0.1.0"
edition = "2021"
publish = false

[dependencies]
clap = { version = "=4.6.7", features = ["derive"] }
crossterm = "=0.29.0"
indicatif = { version = "=0.18.6", features = ["rayon"] }
ratatui = "=0.30.2"
rayon = "=1.12.0"
