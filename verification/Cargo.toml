[package]
name = "mining_techniques"
version = "0.1.0"
edition = "2021"
publish = false

[dependencies]
crossterm = "=0.25.0"
tui = "=0.19.0"
