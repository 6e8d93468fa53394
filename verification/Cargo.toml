[package]
name = "mvis"
version = "0.1.0"
edition = "2021"
publish = false

[dependencies]
crossterm = "*"
csv = "*"
quick-junit = "*"
ratatui = "*"
serde = { version = "*", features = ["derive"] }
serde_json = "*"
sysinfo = "*"
