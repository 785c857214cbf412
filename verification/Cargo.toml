[package]
name = "algorithms"
version = "0.1.0"
edition = "2021"
publish = false

[dependencies]
rand = "0.8"
colored = "2"
terminal_size = "0.1"
crossterm = "0.18"
tui = { version = "0.14", default-features = false, features = ["crossterm"] }
