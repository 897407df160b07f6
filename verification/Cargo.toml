[package]
name = "windfish"
version = "0.1.0"
edition = "2021"
publish = false

[dependencies]
bitcoin = "*"
chrono = "*"
clap = { version = "*", features = ["derive"] }
crossterm = "*"
hex = "*"
ratatui = "*"
thiserror = "*"
