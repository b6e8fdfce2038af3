[package]
name = "mcom"
version = "0.1.0"
edition = "2021"
publish = false

[dependencies]
ansi-to-tui = "*"
anyhow = "1"
chrono = { version = "0.4", default-features = false, features = ["clock", "std"] }
clap = { version = "4", features = ["derive"] }
crossterm = "*"
libc = "0.2"
ratatui = "*"
regex = "1"
serialport = { version = "4", default-features = false }
signal-hook = "*"
