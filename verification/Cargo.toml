[package]
name = "space_scanner"
version = "0.1.0"
edition = "2021"
publish = false

[dependencies]
crossterm = "0.28"
ratatui = "0.29"

[dev-dependencies]
tempfile = "3"
