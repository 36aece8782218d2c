[package]
name = "tui-from-zero"
version = "0.1.0"
edition = "2021"
publish = false

[dependencies]
crossterm = "*"
presentar-core = "*"
presentar-terminal = "*"
