[package]
name = "academic_dashboard"
version = "0.1.0"
edition = "2021"
publish = false

[dependencies]
chrono = "0.4"
csv = "1"
icalendar = "*"
regex = "1"
serde = { version = "1", features = ["derive"] }
serde_json = "1"
thiserror = "*"
clap = { version = "4", features = ["derive"] }
crossterm = "*"
ratatui = "*"
